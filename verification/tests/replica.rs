use std::sync::{Arc, Mutex};

use dslabs::replica::persister::{Persister, SimplePersister};
use dslabs::replica::log::{LogEntry, RaftLogWithSnapShot, SnapshotFile};
use dslabs::replica::peer::{
    ElectionTally, Error, FailedAppendEntries, LeaderState, PeerRequest, Raft, RaftRole, TallyStep,
};
use dslabs::replica::quorum::mid;
use dslabs::replica::rpc::{
    AppendEntriesArgs, AppendEntriesReply, InstallSnapshotArgs, InstallSnapshotReply, PersistedStatus, ProtoEntry,
    RequestVoteArgs, RequestVoteReply, Snapshot,
};

fn entry(term: u64) -> LogEntry {
    LogEntry::new(vec![term as u8], term)
}

/// Peer `me` of `n` whose log holds entries of the given terms.
fn peer_with_log(me: usize, n: usize, terms: &[u64]) -> Raft {
    let mut rf = Raft::new(me, n);
    for t in terms {
        rf.log.push(entry(*t));
    }
    rf
}

fn leader_of_three() -> Raft {
    let mut rf = Raft::new(0, 3);
    let (args, effects) = rf.begin_election();
    assert!(effects.persist);
    assert_eq!(args.term, 1);
    let mut tally = ElectionTally::new(args.term, 3);
    assert_eq!(tally.on_reply(RequestVoteReply { term: 1, vote_granted: true }), TallyStep::Won);
    assert!(rf.try_become_leader(&tally));
    rf
}

#[test]
fn election_makes_a_leader() {
    let mut rf = Raft::new(0, 3);
    assert_eq!(rf.current_role, RaftRole::Follower);
    let (args, _) = rf.begin_election();
    assert_eq!(rf.current_role, RaftRole::Candidate);
    assert_eq!(rf.term, 1);
    assert_eq!(rf.voted_for, Some(0));
    assert_eq!((args.term, args.candidate_id, args.last_log_index, args.last_log_term), (1, 0, 0, 0));

    let mut tally = ElectionTally::new(1, 3);
    assert!(!tally.has_won());
    assert_eq!(tally.on_reply(RequestVoteReply { term: 1, vote_granted: false }), TallyStep::Pending);
    assert_eq!(tally.on_reply(RequestVoteReply { term: 1, vote_granted: true }), TallyStep::Won);
    assert!(rf.try_become_leader(&tally));
    assert!(rf.is_leader());
    let ls = rf.leader_state.as_ref().unwrap();
    assert_eq!(ls.next_index, vec![1, 1, 1]);
    assert_eq!(ls.match_index, vec![0, 0, 0]);
    assert!(rf.get_state().is_leader());
    assert_eq!(rf.get_state().term(), 1);
}

#[test]
fn outdated_reply_ends_an_election() {
    let mut tally = ElectionTally::new(3, 5);
    assert_eq!(tally.on_reply(RequestVoteReply { term: 4, vote_granted: true }), TallyStep::Outdated(4));
    assert_eq!(tally.vote_count, 1);
    let mut rf = Raft::new(0, 5);
    rf.begin_election();
    let lost = ElectionTally::new(1, 5);
    assert!(!rf.try_become_leader(&lost));
    assert_eq!(rf.current_role, RaftRole::Candidate);
}

#[test]
fn a_single_peer_wins_alone() {
    let mut rf = Raft::new(0, 1);
    rf.begin_election();
    let tally = ElectionTally::new(1, 1);
    assert!(tally.has_won());
    assert!(rf.try_become_leader(&tally));
}

#[test]
fn only_the_leader_takes_proposals() {
    let mut follower = Raft::new(1, 3);
    let (refused, effects) = follower.start(b"x".to_vec());
    assert_eq!(refused.unwrap_err(), Error::NotLeader);
    assert!(!effects.replicate);
    let mut rf = leader_of_three();
    let (taken, effects) = rf.start(b"x".to_vec());
    assert_eq!(taken.unwrap(), (1, 1));
    assert!(effects.replicate && !effects.persist);
    assert_eq!(rf.start(b"y".to_vec()).0.unwrap(), (2, 1));
    assert_eq!(rf.log.len(), 2);
    assert_eq!(rf.log.commands[1].data, b"y".to_vec());
}

#[test]
fn replication_commits_on_a_majority() {
    let mut leader = leader_of_three();
    leader.start(b"x".to_vec()).0.unwrap();
    let requests = leader.make_requests();
    assert_eq!(requests.len(), 2);
    assert_eq!(requests[0].0, 1);
    assert_eq!(requests[1].0, 2);
    let args = match &requests[0].1 {
        PeerRequest::AppendEntries(a) => a,
        _ => panic!("expected entries"),
    };
    assert_eq!((args.term, args.leader_id, args.prev_log_index, args.prev_log_term, args.leader_commit), (1, 0, 0, 0, 0));
    assert_eq!(args.entries.len(), 1);
    assert_eq!(args.entries[0].command, b"x".to_vec());

    let mut follower = Raft::new(1, 3);
    let copy = AppendEntriesArgs {
        term: args.term,
        leader_id: args.leader_id,
        prev_log_index: args.prev_log_index,
        prev_log_term: args.prev_log_term,
        entries: vec![ProtoEntry { command: b"x".to_vec(), term: 1 }],
        leader_commit: args.leader_commit,
    };
    let (reply, effects) = follower.do_append_entries(copy);
    assert!(reply.success);
    assert_eq!(reply.term, 1);
    assert!(effects.persist);
    assert!(effects.reset_timer);
    assert_eq!(follower.log.len(), 1);
    assert_eq!(follower.commit_index(), 0);

    let request = AppendEntriesArgs {
        term: 1,
        leader_id: 0,
        prev_log_index: 0,
        prev_log_term: 0,
        entries: vec![ProtoEntry { command: b"x".to_vec(), term: 1 }],
        leader_commit: 0,
    };
    let effects = leader.handle_append_entries(&request, &reply, 1);
    assert_eq!(leader.commit_index(), 1);
    assert!(effects.persist);
    assert_eq!(effects.apply.len(), 1);
    assert!(effects.apply[0].command_valid);
    assert_eq!(effects.apply[0].command, b"x".to_vec());
    assert_eq!(effects.apply[0].command_index, 1);
    let ls = leader.leader_state.as_ref().unwrap();
    assert_eq!(ls.match_index, vec![0, 1, 0]);
    assert_eq!(ls.next_index, vec![1, 2, 1]);

    // the follower learns of the commit with the next request
    let (reply, effects) = follower.do_append_entries(AppendEntriesArgs {
        term: 1,
        leader_id: 0,
        prev_log_index: 1,
        prev_log_term: 1,
        entries: vec![],
        leader_commit: 1,
    });
    assert!(reply.success);
    assert!(!effects.persist);
    assert_eq!(follower.commit_index(), 1);
    assert_eq!(effects.apply.len(), 1);
    assert_eq!(effects.apply[0].command_index, 1);
}

#[test]
fn leader_does_not_commit_older_terms_by_counting() {
    let mut rf = peer_with_log(0, 3, &[1]);
    rf.term = 2;
    rf.current_role = RaftRole::Leader;
    rf.leader_state = Some(LeaderState { next_index: vec![2, 2, 2], match_index: vec![0, 1, 0] });
    assert_eq!(rf.next_commit_index(), 1);
    let effects = rf.leader_commit_logs();
    assert_eq!(rf.commit_index, 0);
    assert!(!effects.persist);
    assert!(effects.apply.is_empty());
}

#[test]
fn refusal_moves_next_index_back() {
    let mut rf = peer_with_log(0, 3, &[1, 1, 2, 2]);
    rf.term = 2;
    rf.current_role = RaftRole::Leader;
    rf.leader_state = Some(LeaderState { next_index: vec![5, 5, 5], match_index: vec![0, 0, 0] });
    let request = AppendEntriesArgs { term: 2, leader_id: 0, prev_log_index: 4, prev_log_term: 2, entries: vec![], leader_commit: 0 };
    // the follower's term 1 starts at 2, where the leader also has term 1
    let reply = AppendEntriesReply { term: 2, success: false, conflicted_term: 1, conflicted_term_starts_at: 2 };
    rf.handle_append_entries(&request, &reply, 1);
    assert_eq!(rf.leader_state.as_ref().unwrap().next_index, vec![5, 2, 5]);
    // a term the leader does not have at that index: one more back
    let reply = AppendEntriesReply { term: 2, success: false, conflicted_term: 3, conflicted_term_starts_at: 3 };
    rf.handle_append_entries(&request, &reply, 2);
    assert_eq!(rf.leader_state.as_ref().unwrap().next_index, vec![5, 2, 2]);
    // a reply to an older request is ignored
    let stale = AppendEntriesArgs { term: 1, leader_id: 0, prev_log_index: 4, prev_log_term: 2, entries: vec![], leader_commit: 0 };
    let reply = AppendEntriesReply { term: 2, success: false, conflicted_term: 0, conflicted_term_starts_at: 1 };
    rf.handle_append_entries(&stale, &reply, 1);
    assert_eq!(rf.leader_state.as_ref().unwrap().next_index, vec![5, 2, 2]);
}

#[test]
fn newer_term_in_a_reply_deposes_the_leader() {
    let mut rf = leader_of_three();
    let request = AppendEntriesArgs { term: 1, leader_id: 0, prev_log_index: 0, prev_log_term: 0, entries: vec![], leader_commit: 0 };
    let reply = AppendEntriesReply { term: 5, success: false, conflicted_term: 0, conflicted_term_starts_at: 0 };
    let effects = rf.handle_append_entries(&request, &reply, 1);
    assert!(effects.to_follower);
    assert!(effects.persist);
    assert_eq!(rf.term, 5);
    assert_eq!(rf.voted_for, None);
    assert_eq!(rf.current_role, RaftRole::Follower);
    rf.clear_leader_state();
    assert!(rf.leader_state.is_none());
}

#[test]
fn check_and_trunc_log_cuts_at_the_first_conflict() {
    // self.log = [1,1,2,3,3], remote = [1,2,4] placed from entry 2
    let mut rf = peer_with_log(0, 3, &[1, 1, 2, 3, 3]);
    let remote = vec![entry(1), entry(2), entry(4)];
    assert_eq!(rf.check_and_trunc_log(2, &remote), 2);
    let terms: Vec<u64> = rf.log.commands.iter().map(|e| e.term).collect();
    assert_eq!(terms, vec![1, 1, 2]);
    // all agree: nothing cut
    let mut rf = peer_with_log(0, 3, &[1, 1, 2]);
    assert_eq!(rf.check_and_trunc_log(1, &[entry(1), entry(1)]), 2);
    assert_eq!(rf.log.len(), 3);
    // the cut does not look at the commit index
    let mut rf = peer_with_log(0, 3, &[1, 1, 2, 3, 3]);
    rf.commit_index = 5;
    rf.last_applied = 5;
    assert_eq!(rf.check_and_trunc_log(2, &remote), 2);
    let terms: Vec<u64> = rf.log.commands.iter().map(|e| e.term).collect();
    assert_eq!(terms, vec![1, 1, 2]);
}

#[test]
fn follower_names_the_conflicting_term() {
    let mut rf = peer_with_log(1, 3, &[1, 2, 2]);
    rf.term = 3;
    let args = AppendEntriesArgs { term: 3, leader_id: 0, prev_log_index: 3, prev_log_term: 3, entries: vec![], leader_commit: 0 };
    let (judged, effects) = rf.do_append_entries_judge(args);
    assert_eq!(judged, Err(FailedAppendEntries::ConflictedEntry { conflicted_term: 2, conflicted_term_starts_at: 2 }));
    assert!(effects.reset_timer);
    // past the end: start over after the last entry
    let args = AppendEntriesArgs { term: 3, leader_id: 0, prev_log_index: 9, prev_log_term: 3, entries: vec![], leader_commit: 0 };
    let (reply, _) = rf.do_append_entries(args);
    assert!(!reply.success);
    assert_eq!((reply.conflicted_term, reply.conflicted_term_starts_at), (0, 4));
    // an older leader
    let args = AppendEntriesArgs { term: 2, leader_id: 0, prev_log_index: 1, prev_log_term: 1, entries: vec![], leader_commit: 0 };
    let (reply, effects) = rf.do_append_entries(args);
    assert!(!reply.success);
    assert_eq!(reply.term, 3);
    assert_eq!((reply.conflicted_term, reply.conflicted_term_starts_at), (0xcafe_babe, 0xcafe_babe));
    assert!(!effects.reset_timer);
    assert_eq!(rf.get_term_starts_at(2, 3), 2);
    assert_eq!(rf.get_term_starts_at(1, 1), 1);
}

#[test]
fn snapshot_covered_entries_answer_with_a_restart() {
    let mut rf = peer_with_log(1, 3, &[1, 1, 2]);
    rf.last_applied = 2;
    rf.commit_index = 2;
    assert!(rf.take_snapshot(SnapshotFile { commands: vec![b"s".to_vec()] }, 2));
    assert_eq!(rf.log.last_included_index, 2);
    assert_eq!(rf.log.last_included_term, 1);
    assert_eq!(rf.log.commands.len(), 1);
    assert_eq!(rf.log.len(), 3);
    assert!(rf.log.is_in_snapshot(2));
    assert!(!rf.log.is_in_snapshot(3));
    assert_eq!(rf.log.term_at(1), 1);
    assert_eq!(rf.log.term_at(3), 2);
    assert_eq!(rf.log.term_at(4), 0);
    assert_eq!(rf.log.checked_offset_index(2), None);
    assert_eq!(rf.log.checked_offset_index(3), Some(0));
    // taking it again changes nothing
    assert!(!rf.take_snapshot(SnapshotFile::default(), 1));
    let args = AppendEntriesArgs { term: 0, leader_id: 0, prev_log_index: 1, prev_log_term: 5, entries: vec![], leader_commit: 0 };
    let (reply, _) = rf.do_append_entries(args);
    assert_eq!((reply.conflicted_term, reply.conflicted_term_starts_at), (0, 2));
    assert!(rf.try_get_log_between(1, 2).is_empty());
    assert!(rf.try_get_log_between(3, 3).is_empty());
}

#[test]
fn install_snapshot_replaces_a_shorter_log() {
    let mut rf = peer_with_log(1, 3, &[1, 1]);
    let args = InstallSnapshotArgs { term: 2, leader_id: 0, last_included_term: 2, last_included_index: 5, data: vec![b"a".to_vec(), b"b".to_vec()] };
    let (reply, effects) = rf.do_install_snapshot(args);
    assert_eq!(reply.term, 2);
    assert!(effects.persist);
    assert!(effects.reset_timer);
    assert_eq!(effects.apply.len(), 2);
    assert!(!effects.apply[0].command_valid);
    assert_eq!(effects.apply[1].command, b"b".to_vec());
    assert_eq!((rf.log.last_included_index, rf.commit_index, rf.last_applied), (5, 5, 5));
    // a snapshot behind the log is not installed
    let args = InstallSnapshotArgs { term: 2, leader_id: 0, last_included_term: 2, last_included_index: 3, data: vec![] };
    let (_, effects) = rf.do_install_snapshot(args);
    assert!(!effects.persist);
    assert_eq!(rf.log.last_included_index, 5);
    // an older leader is refused
    let args = InstallSnapshotArgs { term: 1, leader_id: 0, last_included_term: 1, last_included_index: 9, data: vec![] };
    let (reply, effects) = rf.do_install_snapshot(args);
    assert_eq!(reply, InstallSnapshotReply { term: 2 });
    assert!(!effects.reset_timer);
}

#[test]
fn leader_sends_the_snapshot_to_a_follower_far_behind() {
    let mut rf = peer_with_log(0, 3, &[1, 1, 1]);
    rf.term = 1;
    rf.last_applied = 2;
    rf.commit_index = 2;
    rf.take_snapshot(SnapshotFile { commands: vec![b"s".to_vec()] }, 2);
    rf.current_role = RaftRole::Leader;
    rf.leader_state = Some(LeaderState { next_index: vec![4, 1, 3], match_index: vec![0, 0, 0] });
    assert!(rf.need_install_snapshot(1));
    assert!(!rf.need_install_snapshot(2));
    let requests = rf.make_requests();
    match &requests[0].1 {
        PeerRequest::InstallSnapshot(a) => {
            assert_eq!((a.term, a.last_included_index, a.last_included_term), (1, 2, 1));
            assert_eq!(a.data, vec![b"s".to_vec()]);
        }
        _ => panic!("expected a snapshot"),
    }
    match &requests[1].1 {
        PeerRequest::AppendEntries(a) => {
            assert_eq!((a.prev_log_index, a.prev_log_term, a.entries.len()), (2, 1, 1));
        }
        _ => panic!("expected entries"),
    }
    let effects = rf.handle_install_snapshot(&InstallSnapshotArgs { term: 1, leader_id: 0, last_included_term: 1, last_included_index: 2, data: vec![] }, &InstallSnapshotReply { term: 1 }, 1);
    assert_eq!(rf.leader_state.as_ref().unwrap().next_index, vec![4, 3, 3]);
    assert!(!effects.persist);
}

#[test]
fn votes_go_to_one_candidate_per_term() {
    let mut rf = Raft::new(1, 3);
    let (reply, effects) = rf.do_request_vote(RequestVoteArgs { term: 1, candidate_id: 0, last_log_index: 0, last_log_term: 0 });
    assert_eq!(reply, RequestVoteReply { term: 1, vote_granted: true });
    assert!(effects.persist && effects.reset_timer);
    assert_eq!(rf.voted_for, Some(0));
    let (reply, _) = rf.do_request_vote(RequestVoteArgs { term: 1, candidate_id: 2, last_log_index: 5, last_log_term: 1 });
    assert!(!reply.vote_granted);
    let (reply, _) = rf.do_request_vote(RequestVoteArgs { term: 1, candidate_id: 0, last_log_index: 0, last_log_term: 0 });
    assert!(reply.vote_granted);
    // a newer term frees the vote
    let (reply, _) = rf.do_request_vote(RequestVoteArgs { term: 2, candidate_id: 2, last_log_index: 0, last_log_term: 0 });
    assert_eq!(reply, RequestVoteReply { term: 2, vote_granted: true });
}

#[test]
fn votes_go_to_up_to_date_logs_only() {
    let mut rf = peer_with_log(1, 3, &[1, 2]);
    rf.term = 2;
    let (reply, effects) = rf.do_request_vote(RequestVoteArgs { term: 3, candidate_id: 0, last_log_index: 5, last_log_term: 1 });
    assert_eq!(reply, RequestVoteReply { term: 3, vote_granted: false });
    assert!(effects.persist);
    assert!(!effects.reset_timer);
    let (reply, _) = rf.do_request_vote(RequestVoteArgs { term: 3, candidate_id: 0, last_log_index: 1, last_log_term: 2 });
    assert!(!reply.vote_granted);
    let (reply, _) = rf.do_request_vote(RequestVoteArgs { term: 3, candidate_id: 0, last_log_index: 2, last_log_term: 2 });
    assert!(reply.vote_granted);
    // an older term is refused
    let (reply, _) = rf.do_request_vote(RequestVoteArgs { term: 1, candidate_id: 2, last_log_index: 9, last_log_term: 9 });
    assert_eq!(reply, RequestVoteReply { term: 3, vote_granted: false });
}

#[test]
fn middle_of_match_indices() {
    let mut v = vec![3, 9, 1, 7];
    assert_eq!(mid(&mut v), 7);
    assert_eq!(v, vec![9, 7, 3, 1]);
    let mut v = vec![5, 1, 4, 2];
    assert_eq!(mid(&mut v), 4);
    assert_eq!(v, vec![5, 4, 2, 1]);
    let mut v = vec![5];
    assert_eq!(mid(&mut v), 5);
    let mut v = vec![2, 2, 8, 0, 4];
    assert_eq!(mid(&mut v), 2);
    let mut rf = peer_with_log(2, 5, &[1, 1, 1, 1]);
    rf.term = 1;
    rf.current_role = RaftRole::Leader;
    rf.leader_state = Some(LeaderState { next_index: vec![1; 5], match_index: vec![4, 1, 0, 3, 2] });
    // others: 4, 1, 3, 2 -> sorted 4, 3, 2, 1 -> the second
    assert_eq!(rf.next_commit_index(), 3);
    let effects = rf.leader_commit_logs();
    assert_eq!(rf.commit_index, 3);
    assert_eq!(effects.apply.iter().map(|m| m.command_index).collect::<Vec<_>>(), vec![1, 2, 3]);
}

#[test]
fn log_between_gives_committed_entries() {
    let mut rf = peer_with_log(0, 3, &[1, 2, 3]);
    rf.commit_index = 2;
    let msgs = rf.log_between(1, 2);
    assert_eq!(msgs.iter().map(|m| (m.command_index, m.command.clone())).collect::<Vec<_>>(), vec![(1, vec![1]), (2, vec![2])]);
    assert!(rf.try_get_log_between(1, 3).is_empty());
    assert!(rf.try_get_log_between(0, 1).is_empty());
    assert_eq!(rf.try_get_log_between(2, 2).len(), 1);
    assert!(rf.log_between(2, 1).is_empty());
}

#[test]
fn persisted_state_restores() {
    let mut rf = peer_with_log(0, 3, &[1, 2]);
    rf.term = 2;
    rf.voted_for = Some(1);
    rf.last_applied = 1;
    rf.commit_index = 1;
    rf.take_snapshot(SnapshotFile { commands: vec![b"kv".to_vec()] }, 1);
    let status = PersistedStatus::by_raft(&rf);
    let snapshot = Snapshot::by_raft(&rf);
    assert_eq!(status.current_term, 2);
    assert_eq!(status.voted_for, vec![1]);
    assert_eq!(status.logs.len(), 1);
    assert_eq!(snapshot.last_index_of_snapshot, 1);

    let mut back = Raft::new(0, 3);
    let msgs = back.restore(status, snapshot);
    assert_eq!(msgs.len(), 1);
    assert_eq!(msgs[0].command, b"kv".to_vec());
    assert_eq!((back.term, back.voted_for, back.commit_index, back.last_applied), (2, Some(1), 1, 1));
    assert_eq!(back.log.len(), 2);
    assert_eq!(back.log.last_term(), 2);
}

#[test]
fn log_with_snapshot_indexing() {
    let log = RaftLogWithSnapShot {
        last_included_index: 3,
        last_included_term: 2,
        state_machine_state: SnapshotFile::default(),
        commands: vec![entry(2), entry(4)],
    };
    assert_eq!(log.len(), 5);
    assert_eq!(log.offset_index(5), 1);
    assert_eq!(log.get(0).map(|e| e.term), None);
    assert_eq!(log.get(4).map(|e| e.term), Some(2));
    assert_eq!(log.get(6).map(|e| e.term), None);
    assert_eq!(log.after(4).len(), 2);
    assert_eq!(log.after(6).len(), 0);
    assert_eq!(log.last_term(), 4);
    let empty = RaftLogWithSnapShot::default();
    assert_eq!(empty.last_term(), 0);
    assert_eq!(empty.len(), 0);
}

#[test]
fn stepping_down_on_newer_terms() {
    let mut rf = leader_of_three();
    let effects = rf.check_term(1);
    assert!(!effects.to_follower && !effects.persist);
    assert!(rf.is_leader());
    let mut cand = Raft::new(0, 3);
    cand.begin_election();
    let effects = cand.check_term(1);
    assert!(effects.to_follower);
    assert_eq!(cand.current_role, RaftRole::Follower);
    let effects = rf.check_term(0);
    assert!(!effects.to_follower);
    rf.kill();
    assert!(!rf.is_leader());
}

#[test]
fn test_object_safety() {
    let mut sp = SimplePersister::new();
    sp.save_raft_state(vec![111]);
    let mut obj: Box<dyn Persister + Sync> = Box::new(sp);
    assert_eq!(obj.raft_state(), vec![111]);
    obj.save_state_and_snapshot(vec![222], vec![123]);
    assert_eq!(obj.raft_state(), vec![222]);
    assert_eq!(obj.snapshot(), vec![123]);

    // saving goes through `&mut`, so a shared persister sits behind a lock
    let cloneable_obj: Arc<Mutex<Box<dyn Persister + Sync>>> = Arc::new(Mutex::new(obj));
    assert_eq!(cloneable_obj.lock().unwrap().raft_state(), vec![222]);
    assert_eq!(cloneable_obj.lock().unwrap().snapshot(), vec![123]);

    let cloneable_obj_ = cloneable_obj.clone();
    cloneable_obj.lock().unwrap().save_raft_state(vec![233]);
    assert_eq!(cloneable_obj_.lock().unwrap().raft_state(), vec![233]);
    assert_eq!(cloneable_obj_.lock().unwrap().snapshot(), vec![123]);

    let sp: Box<SimplePersister> = Box::new(SimplePersister::new());
    let _box_obj: Box<dyn Persister> = Box::new(sp);
}

#[test]
fn a_cut_below_the_commit_index_is_judged_as_the_leader_asks() {
    let pe = |t: u64| ProtoEntry { command: vec![t as u8], term: t };
    // the commit index is not raised: it stays past the shorter log
    let mut rf = peer_with_log(1, 3, &[1, 1, 2, 3, 3]);
    rf.term = 4;
    rf.commit_index = 5;
    rf.last_applied = 5;
    let args = AppendEntriesArgs { term: 4, leader_id: 0, prev_log_index: 1, prev_log_term: 1, entries: vec![pe(1), pe(2), pe(4)], leader_commit: 3 };
    let (reply, effects) = rf.do_append_entries(args);
    assert!(reply.success && effects.persist);
    let terms: Vec<u64> = rf.log.commands.iter().map(|e| e.term).collect();
    assert_eq!(terms, vec![1, 1, 2, 4]);
    assert_eq!((rf.commit_index, rf.last_applied), (5, 5));
    // the commit index is raised: it stops at the log's end, and what was
    // applied counts back to it
    let mut rf = peer_with_log(1, 3, &[1, 1, 2, 3, 3]);
    rf.term = 4;
    rf.commit_index = 5;
    rf.last_applied = 5;
    let args = AppendEntriesArgs { term: 4, leader_id: 0, prev_log_index: 1, prev_log_term: 1, entries: vec![pe(1), pe(2), pe(4)], leader_commit: 6 };
    let (reply, effects) = rf.do_append_entries(args);
    assert!(reply.success && effects.apply.is_empty());
    assert_eq!((rf.commit_index, rf.last_applied), (4, 4));
}
