use std::sync::mpsc::channel;

use dslabs::game::{judge, secret_number, Game, Verdict};
use dslabs::kv::store::snapshot_due;
use dslabs::linearizability::waiting::{Heard, Next, Tally};
use dslabs::raft::route::{reply_message, route, Route};
use dslabs::raft::{HeartbeatArgs, HeartbeatReply, Message, ProtoMessage, RequestVoteArgs};
use dslabs::replica::persister::{Persister, SimplePersister};
use dslabs::replica::timer::{timer_step, try_send, Timer, TimerAction, TimerEvent, TimerMsg};

#[test]
fn a_persister_gives_back_the_last_save() {
    let mut sp = SimplePersister::new();
    assert_eq!(sp.raft_state(), Vec::<u8>::new());
    assert_eq!(sp.snapshot(), Vec::<u8>::new());
    sp.save_raft_state(vec![111]);
    assert_eq!(sp.raft_state(), vec![111]);
    let mut obj: Box<dyn Persister> = Box::new(sp);
    assert_eq!(obj.raft_state(), vec![111]);
    obj.save_state_and_snapshot(vec![222], vec![123]);
    assert_eq!(obj.raft_state(), vec![222]);
    assert_eq!(obj.snapshot(), vec![123]);
    obj.save_raft_state(vec![233]);
    assert_eq!(obj.raft_state(), vec![233]);
    assert_eq!(obj.snapshot(), vec![123]);
}

#[test]
fn the_timer_decides_by_what_it_saw() {
    assert_eq!(timer_step(TimerEvent::TimedOut), TimerAction::Fire);
    assert_eq!(timer_step(TimerEvent::Received(TimerMsg::Reset)), TimerAction::Wait);
    assert_eq!(timer_step(TimerEvent::Received(TimerMsg::Stop)), TimerAction::Halt);
    assert_eq!(timer_step(TimerEvent::Disconnected), TimerAction::Halt);
}

#[test]
fn a_timer_tells_its_thread() {
    let (sx, rx) = channel();
    let mut timer = Timer::new(sx);
    assert!(timer.reset());
    assert!(timer.stop());
    assert_eq!(rx.recv().unwrap(), TimerMsg::Reset);
    assert_eq!(rx.recv().unwrap(), TimerMsg::Stop);
    let mut some = Some(timer);
    assert!(try_send(&mut some, TimerMsg::Reset));
    assert_eq!(rx.recv().unwrap(), TimerMsg::Reset);
    drop(rx);
    assert!(!try_send(&mut some, TimerMsg::Stop));
    assert!(!some.as_mut().unwrap().reset());
    assert!(!some.as_mut().unwrap().stop());
    assert!(!try_send(&mut None, TimerMsg::Reset));
}

#[test]
fn requests_go_to_the_peer_they_name() {
    let hb = HeartbeatArgs { term: 3, leader_id: 1 };
    let m = Message { from: Some(1), to: Some(2), message: ProtoMessage::HeartbeatArgs(hb.clone()) };
    match route(m) {
        Route::Heartbeat(t, a) => {
            assert_eq!(t, 2);
            assert_eq!(a, hb);
        }
        other => panic!("unexpected route {:?}", other),
    }
    let rv = RequestVoteArgs { term: 4, candidate_id: 0 };
    let m = Message { from: Some(0), to: Some(1), message: ProtoMessage::RequestVoteArgs(rv) };
    assert!(matches!(route(m), Route::RequestVote(1, _)));
    let m = Message { from: None, to: None, message: ProtoMessage::MsgBeat };
    assert!(matches!(route(m), Route::Drop));
    let reply = reply_message(Some(1), Some(2), ProtoMessage::HeartbeatReply(HeartbeatReply { term: 3, commited_index: 0 }));
    assert_eq!(reply.from, Some(2));
    assert_eq!(reply.to, Some(1));
}

#[test]
fn guesses_are_judged() {
    assert_eq!(judge(3, 50), Verdict::TooSmall);
    assert_eq!(judge(70, 50), Verdict::TooLarge);
    assert_eq!(judge(50, 50), Verdict::Win);
    for _ in 0..200 {
        let s = secret_number();
        assert!((1..=100).contains(&s));
    }
    let mut game = Game { rounds_left: 2, secret: 42 };
    assert!(game.running());
    assert_eq!(game.turn(None), None);
    assert_eq!(game.turn(Some(42)), Some(Verdict::Win));
    assert!(!game.running());
    let game = Game::new(5);
    assert_eq!(game.rounds_left, 5);
    assert!((1..=100).contains(&game.secret));
}

#[test]
fn a_snapshot_is_due_when_the_log_is_large_and_caught_up() {
    assert!(snapshot_due(901, 900, 10, 10, 1000));
    assert!(snapshot_due(901, 900, 29, 10, 1000));
    assert!(!snapshot_due(901, 900, 30, 10, 1000));
    assert!(!snapshot_due(900, 900, 10, 10, 1000));
    assert!(snapshot_due(10, 9, 5, 5, 10));
    assert!(!snapshot_due(10, 9, 6, 5, 10));
}

#[test]
fn waiting_stops_at_the_first_false_or_the_last_answer() {
    let mut t = Tally::new(2);
    assert_eq!(t.hear(Heard::Answer(true)), Next::Wait);
    assert_eq!(t.hear(Heard::Answer(true)), Next::Stop);
    assert!(t.ok);
    let mut t = Tally::new(3);
    assert_eq!(t.hear(Heard::Answer(false)), Next::KillAndStop);
    assert!(!t.ok);
    let mut t = Tally::new(3);
    assert_eq!(t.hear(Heard::TimedOut), Next::Stop);
    assert!(t.ok);
    assert_eq!(t.remaining, 3);
}
