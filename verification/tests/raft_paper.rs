use dslabs::raft::{
    AppendEntriesArgs, HeartbeatArgs, Message, ProtoMessage, Raft, RequestVoteArgs, RequestVoteReply, StateType,
};

/// A peer 0 of a cluster of three.
fn new_test_raft() -> Raft {
    Raft::new(0, 3)
}

/// A peer 0 of three that sends a heartbeat on every tick as leader.
fn new_beating_raft() -> Raft {
    let mut rf = new_test_raft();
    rf.update_config(None, Some(1));
    rf
}

fn sorted_msgs(rf: &Raft) -> Vec<Message> {
    let mut msgs = rf.msgs.clone();
    msgs.sort_by_key(|m| m.to);
    msgs
}

#[test]
fn test_vote_follower_2aa() {
    let mut rf = new_test_raft();
    let term = rf.state.term;
    rf.become_follower(term, Some(2));

    let new_term = term + 1;
    let msg = Message {
        from: Some(2),
        to: Some(0),
        message: ProtoMessage::RequestVoteArgs(RequestVoteArgs { term: new_term, candidate_id: 2 }),
    };
    match rf.step(msg) {
        Some(ProtoMessage::RequestVoteReply(reply)) => {
            assert_eq!(new_term, reply.term);
            assert!(reply.vote_granted);
        }
        _ => panic!("unexpected resp type"),
    }
}

#[test]
fn test_vote_from_any_state_2aa() {
    for t in [StateType::Follower, StateType::Candidate, StateType::Leader] {
        let mut rf = new_test_raft();
        let term = rf.state.term;
        match t {
            StateType::Follower => rf.become_follower(term, Some(2)),
            StateType::Candidate => rf.become_candidate(),
            StateType::Leader => {
                rf.become_candidate();
                rf.become_leader();
            }
        }
        let new_term = rf.state.term + 1;
        let msg = Message {
            from: Some(2),
            to: Some(0),
            message: ProtoMessage::RequestVoteArgs(RequestVoteArgs { term: new_term, candidate_id: 2 }),
        };
        match rf.step(msg) {
            Some(ProtoMessage::RequestVoteReply(reply)) => {
                assert_eq!(new_term, reply.term);
                assert!(reply.vote_granted);
            }
            _ => panic!("unexpected resp type"),
        }
    }
}

#[test]
fn test_start_at_follower_2aa() {
    let rf = new_test_raft();
    assert_eq!(StateType::Follower, rf.state.state_type);
}

#[test]
fn test_candidate_wins() {
    let mut rf = new_beating_raft();
    rf.become_candidate();
    let term = rf.state.term;
    rf.msgs.clear();

    rf.step(Message {
        from: Some(1),
        to: Some(0),
        message: ProtoMessage::RequestVoteReply(RequestVoteReply { term, vote_granted: true }),
    });
    rf.step(Message {
        from: Some(2),
        to: Some(0),
        message: ProtoMessage::RequestVoteReply(RequestVoteReply { term, vote_granted: true }),
    });
    rf.tick();

    let expected = vec![
        Message { to: Some(1), from: Some(0), message: ProtoMessage::HeartbeatArgs(HeartbeatArgs { term, leader_id: 0 }) },
        Message { to: Some(2), from: Some(0), message: ProtoMessage::HeartbeatArgs(HeartbeatArgs { term, leader_id: 0 }) },
    ];
    assert_eq!(expected, sorted_msgs(&rf));
    assert_eq!(StateType::Leader, rf.state.state_type);
}

#[test]
fn test_leadear_bcastbeat() {
    let mut rf = new_beating_raft();
    rf.become_candidate();
    rf.become_leader();
    let term = rf.state.term;
    rf.tick();

    let expected = vec![
        Message { to: Some(1), from: Some(0), message: ProtoMessage::HeartbeatArgs(HeartbeatArgs { term, leader_id: 0 }) },
        Message { to: Some(2), from: Some(0), message: ProtoMessage::HeartbeatArgs(HeartbeatArgs { term, leader_id: 0 }) },
    ];
    assert_eq!(expected, sorted_msgs(&rf));
}

#[test]
fn test_follower_start_election_2aa() {
    test_nonleader_start_election(StateType::Follower)
}

#[test]
fn test_candidate_start_election_2aa() {
    test_nonleader_start_election(StateType::Candidate)
}

fn test_nonleader_start_election(state_type: StateType) {
    let mut rf = new_test_raft();
    let et = 10;
    match state_type {
        StateType::Follower => rf.become_follower(1, Some(2)),
        StateType::Candidate => rf.become_candidate(),
        _ => {}
    }
    // the election timeout of this run is `et` ticks
    rf.randomized_election_timeout = et;

    for _ in 0..2 * et {
        rf.tick();
    }

    let state = rf.state.clone();
    assert_eq!(2, state.term);
    assert_eq!(StateType::Candidate, state.state_type);
    assert_eq!(Some(0), state.voted_for);
    assert!(state.votes.get(&0).unwrap());

    let expected = vec![
        Message {
            to: Some(1),
            from: Some(0),
            message: ProtoMessage::RequestVoteArgs(RequestVoteArgs { term: state.term, candidate_id: 0 }),
        },
        Message {
            to: Some(2),
            from: Some(0),
            message: ProtoMessage::RequestVoteArgs(RequestVoteArgs { term: state.term, candidate_id: 0 }),
        },
    ];
    assert_eq!(expected, sorted_msgs(&rf));
}

#[test]
fn test_follower_vote2_aa() {
    struct Test {
        vote: Option<u64>,
        nvote: u64,
        wreject: bool,
    }
    let tests = vec![
        Test { vote: Some(0), nvote: 0, wreject: false },
        Test { vote: None, nvote: 1, wreject: false },
        Test { vote: Some(0), nvote: 0, wreject: false },
        Test { vote: Some(1), nvote: 1, wreject: false },
        Test { vote: Some(0), nvote: 1, wreject: true },
        Test { vote: Some(1), nvote: 0, wreject: true },
    ];
    for test in tests {
        let mut rf = new_test_raft();
        rf.state.term = 1;
        rf.state.voted_for = test.vote;
        let reply = rf.step(Message {
            from: Some(test.nvote),
            to: Some(0),
            message: ProtoMessage::RequestVoteArgs(RequestVoteArgs { term: 1, candidate_id: test.nvote }),
        });
        let expected = ProtoMessage::RequestVoteReply(RequestVoteReply { term: 1, vote_granted: !test.wreject });
        assert_eq!(reply, Some(expected));
    }
}

#[test]
fn test_candiate_fallback_2aa() {
    let tests = [
        (AppendEntriesArgs { term: 1, leader_id: 2, prev_log_term: 0, entries: Vec::new(), leader_commit: 0 }, 1),
        (AppendEntriesArgs { term: 2, leader_id: 2, prev_log_term: 0, entries: Vec::new(), leader_commit: 0 }, 2),
    ];
    for (args, term) in tests {
        let mut rf = new_test_raft();
        rf.step(ProtoMessage::MsgHup.into());
        let reply = rf.step(ProtoMessage::AppendEntriesArgs(args).into());
        assert!(reply.is_some());
        assert_eq!(StateType::Follower, rf.state.state_type);
        assert_eq!(term, rf.state.term);
    }
}
