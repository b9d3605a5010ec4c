use dslabs::kv::appends::{check_clnt_appends, check_concurrent_appends, AppendError, AppendFault};
use dslabs::kv::clerk::{get_from_leader, put_append_from_leader, Clerk, Op as ClerkOp, Target};
use dslabs::kv::command::KvCommand;
use dslabs::kv::server::{already_done, committed, get_reply, put_append_reply, start_outcome, KvError};
use dslabs::kv::service::{GetReply, GetRequest, Op, PutAppendReply, PutAppendRequest};
use dslabs::kv::store::{CommandResponse, KvStateMachine};
use dslabs::replica::peer::Error;

fn id_bytes(n: u8) -> Vec<u8> {
    let mut v = vec![0u8; 16];
    v[15] = n;
    v
}

fn put(id: u128, client: &str, key: &str, value: &str) -> KvCommand {
    KvCommand::Put { id, key: key.to_owned(), value: value.to_owned(), client: client.to_owned() }
}

fn append(id: u128, client: &str, key: &str, value: &str) -> KvCommand {
    KvCommand::Append { id, key: key.to_owned(), value: value.to_owned(), client: client.to_owned() }
}

fn get(id: u128, client: &str, key: &str) -> KvCommand {
    KvCommand::Get { id, key: key.to_owned(), client: client.to_owned() }
}

#[test]
fn a_read_sees_the_last_write() {
    let mut fsm = KvStateMachine::new();
    fsm.apply(1, put(1, "a", "k", "v1"));
    fsm.apply(2, append(2, "a", "k", "+2"));
    let r = fsm.apply(3, get(3, "a", "k"));
    assert_eq!(r.reply, "v1+2");
    assert_eq!(r.command_id, 3);
    assert_eq!(r.command_idx, 3);
    assert_eq!(fsm.get_value("k"), "v1+2");
    assert_eq!(fsm.get_value("missing"), "");
    assert_eq!(fsm.last_index, 3);
}

#[test]
fn a_retried_command_is_applied_once() {
    let mut fsm = KvStateMachine::new();
    fsm.apply(1, append(7, "c", "k", "x"));
    fsm.apply(2, append(7, "c", "k", "x"));
    assert_eq!(fsm.get_value("k"), "x");
    assert!(fsm.has_done("c", 7));
    assert!(!fsm.has_done("c", 8));
    assert!(!fsm.has_done("d", 7));
    // another clerk's command with the same id is applied
    fsm.apply(3, append(7, "d", "k", "y"));
    assert_eq!(fsm.get_value("k"), "xy");
}

#[test]
fn append_to_a_missing_key_starts_empty() {
    let mut fsm = KvStateMachine::new();
    fsm.handle_command(append(1, "c", "k", "z"));
    assert_eq!(fsm.get_value("k"), "z");
    // a get changes nothing, not even the clerk's record
    fsm.handle_command(get(2, "c", "k"));
    assert!(fsm.has_done("c", 2));
}

#[test]
fn responses_before_the_command_applies() {
    let mut fsm = KvStateMachine::new();
    let r = fsm.apply(1, put(5, "c", "k", "v"));
    assert_eq!((r.command_id, r.reply.as_str(), r.command_idx), (5, "", 1));
    let r = fsm.command_response(9, &get(6, "c", "k"));
    assert_eq!((r.command_id, r.reply.as_str(), r.command_idx), (6, "v", 9));
}

#[test]
fn snapshots_carry_the_state() {
    let mut fsm = KvStateMachine::new();
    fsm.apply(1, put(1, "a", "k1", "v1"));
    fsm.apply(2, put(258, "b", "k2", "v2"));
    let snap = fsm.make_snapshot();
    assert_eq!(snap.last_index, 2);
    let mut kvs = snap.kvs.clone();
    kvs.sort();
    assert_eq!(kvs, vec![("k1".to_owned(), "v1".to_owned()), ("k2".to_owned(), "v2".to_owned())]);
    let mut ids = snap.last_commands.clone();
    ids.sort();
    assert_eq!(ids[1].0, "b");
    assert_eq!(ids[1].1[14..], [1, 2]);

    let mut restored = KvStateMachine::new();
    restored.install_last_commands(snap.last_commands);
    restored.install_key_values(snap.kvs, snap.last_index);
    assert_eq!(restored.get_value("k2"), "v2");
    assert_eq!(restored.last_index, 2);
    assert!(restored.has_done("b", 258));
    assert!(restored.has_done("a", 1));
}

#[test]
fn commands_from_requests() {
    let req = PutAppendRequest { key: "k".to_owned(), value: "v".to_owned(), op: 2, id: id_bytes(9), client: "c".to_owned() };
    assert_eq!(req.get_id(), 9);
    assert!(!req.is_readonly());
    let cmd = KvCommand::from_put_append(req);
    assert!(matches!(cmd, KvCommand::Append { id: 9, .. }));
    assert_eq!(cmd.get_client(), "c");
    assert!(!cmd.is_readonly());
    let req = PutAppendRequest { key: "k".to_owned(), value: "v".to_owned(), op: 1, id: id_bytes(1), client: String::new() };
    assert!(matches!(KvCommand::from_put_append(req), KvCommand::Put { id: 1, .. }));
    let req = GetRequest { key: "k".to_owned(), id: id_bytes(3), client: "c".to_owned() };
    assert_eq!(req.get_id(), 3);
    assert!(req.is_readonly());
    let cmd = KvCommand::from_get(req);
    assert_eq!(cmd.get_id(), 3);
    assert!(cmd.is_readonly());
    let mut big = vec![0u8; 16];
    big[0] = 1;
    let req = GetRequest { key: String::new(), id: big, client: String::new() };
    assert_eq!(req.get_id(), 1u128 << 120);
}

#[test]
fn ops_by_number() {
    assert_eq!(Op::from_i32(0), Some(Op::Unknown));
    assert_eq!(Op::from_i32(1), Some(Op::Put));
    assert_eq!(Op::from_i32(2), Some(Op::Append));
    assert_eq!(Op::from_i32(3), None);
    assert!(Op::is_valid(2));
    assert!(!Op::is_valid(-1));
}

#[test]
fn replies_from_outcomes() {
    assert_eq!(start_outcome(Ok((4, 1))).unwrap(), 4);
    assert!(matches!(start_outcome(Err(Error::NotLeader)), Err(KvError::NotLeader)));
    let ok = committed(CommandResponse::new(5, "v".to_owned(), 2), 5);
    let reply = get_reply(Some(ok));
    assert!(!reply.wrong_leader);
    assert_eq!((reply.err.as_str(), reply.value.as_str()), ("", "v"));
    let lost = committed(CommandResponse::new(6, String::new(), 2), 5);
    assert!(matches!(lost, Err(KvError::FailToCommit)));
    let reply = get_reply(Some(lost));
    assert_eq!(reply.err, "ERROR: The command failed to commit.");
    let reply = get_reply(Some(Err(KvError::NotLeader)));
    assert!(reply.wrong_leader);
    assert_eq!(reply.err, "not leader");
    let reply = get_reply(None);
    assert_eq!(reply.err, "FSM cancels execution.");

    let reply = put_append_reply(Some(Err(KvError::Timeout)));
    assert!(!reply.wrong_leader);
    assert_eq!(reply.err, "The command spend too mach time to commit, maybe leader is died or network partition occurs.");
    let reply = put_append_reply(Some(Err(KvError::NotLeader)));
    assert!(reply.wrong_leader);
    let reply = put_append_reply(Some(Ok(CommandResponse::new(1, String::new(), 1))));
    assert_eq!(reply.err, "");
    assert_eq!(put_append_reply(None).err, "FSM cancels execution.");
    assert_eq!(KvError::Raft(Error::NotLeader).message(), "Raft response error.");
    assert_eq!(KvError::NotLeader.message(), "Current node isn't leader.");
}

#[test]
fn a_retry_of_an_applied_command_succeeds_at_once() {
    let mut fsm = KvStateMachine::new();
    let req = PutAppendRequest { key: "k".to_owned(), value: "v".to_owned(), op: 1, id: id_bytes(4), client: "c".to_owned() };
    assert!(already_done(&fsm, &req).is_none());
    fsm.apply(1, KvCommand::from_put_append(req.clone()));
    let reply = already_done(&fsm, &req).unwrap();
    assert!(!reply.wrong_leader);
    assert_eq!(reply.err, "");
}

#[test]
fn clerk_follows_the_leader() {
    let mut ck = Clerk::new("ck".to_owned(), vec!["s0", "s1", "s2"]);
    assert_eq!(ck.target(), Target::All);
    assert!(!ck.on_seek_reply(0, false));
    assert_eq!(ck.target(), Target::All);
    assert!(ck.on_seek_reply(2, true));
    assert_eq!(ck.target(), Target::Leader(2));
    assert!(ck.on_leader_reply(true));
    assert_eq!(ck.target(), Target::Leader(2));
    assert!(!ck.on_leader_reply(false));
    assert_eq!(ck.target(), Target::All);
    assert_eq!(ck.servers.len(), 3);
    assert_eq!(ck.name, "ck");
}

#[test]
fn clerk_requests() {
    let ck: Clerk<()> = Clerk::new("ck".to_owned(), vec![]);
    let p = ck.put("k".to_owned(), "v".to_owned());
    assert_eq!((p.key.as_str(), p.value.as_str(), p.op, p.id.len()), ("k", "v", 1, 16));
    let a = ck.append("k".to_owned(), "w".to_owned());
    assert_eq!((a.op, a.id.len()), (2, 16));
    assert_ne!(p.id, a.id);
    let g = ck.get_args("k".to_owned());
    assert_eq!((g.key.as_str(), g.id.len()), ("k", 16));
    let r = ClerkOp::Append("x".to_owned(), "y".to_owned()).into_request();
    assert_eq!(r.op, 2);
}

#[test]
fn replies_from_the_leader() {
    assert!(!get_from_leader(&None));
    assert!(!get_from_leader(&Some(GetReply { wrong_leader: true, err: String::new(), value: String::new() })));
    assert!(!get_from_leader(&Some(GetReply { wrong_leader: false, err: "x".to_owned(), value: String::new() })));
    assert!(get_from_leader(&Some(GetReply { wrong_leader: false, err: String::new(), value: "v".to_owned() })));
    assert!(!put_append_from_leader(&None));
    assert!(put_append_from_leader(&Some(PutAppendReply { wrong_leader: false, err: String::new() })));
}

#[test]
fn appends_of_one_client_in_order() {
    let v = "x 0 0 yx 1 0 yx 0 1 yx 0 2 y";
    assert_eq!(check_clnt_appends(0, v, 3), Ok(()));
    assert_eq!(check_clnt_appends(1, v, 1), Ok(()));
    assert_eq!(check_clnt_appends(0, v, 0), Ok(()));
    assert_eq!(
        check_clnt_appends(1, v, 2),
        Err(AppendError { client: 1, index: 1, fault: AppendFault::Missing })
    );
    assert_eq!(
        check_clnt_appends(0, "x 0 0 yx 0 1 yx 0 0 y", 2),
        Err(AppendError { client: 0, index: 0, fault: AppendFault::Duplicate })
    );
    assert_eq!(
        check_clnt_appends(0, "x 0 1 yx 0 0 y", 2),
        Err(AppendError { client: 0, index: 1, fault: AppendFault::WrongOrder })
    );
    assert_eq!(check_clnt_appends(12, "x 12 10 y", 11).unwrap_err().index, 0);
}

#[test]
fn appends_of_concurrent_clients() {
    let v = "x 1 0 yx 0 0 yx 1 1 yx 0 1 y";
    assert_eq!(check_concurrent_appends(v, &[2, 2]), Ok(()));
    assert_eq!(check_concurrent_appends(v, &[]), Ok(()));
    assert_eq!(
        check_concurrent_appends(v, &[2, 3]),
        Err(AppendError { client: 1, index: 2, fault: AppendFault::Missing })
    );
    assert_eq!(
        check_concurrent_appends(v, &[3, 3]),
        Err(AppendError { client: 0, index: 2, fault: AppendFault::Missing })
    );
}

#[test]
fn a_put_or_append_is_taken_before_a_get() {
    let pa = PutAppendRequest { key: "k".to_owned(), value: "v".to_owned(), op: 1, id: id_bytes(5), client: "c".to_owned() };
    let get = GetRequest { key: "g".to_owned(), id: id_bytes(6), client: "c".to_owned() };
    let cmd = KvCommand::from_decoded(Some(pa), Some(get.clone())).unwrap();
    assert!(matches!(cmd, KvCommand::Put { id: 5, .. }));
    let cmd = KvCommand::from_decoded(None, Some(get)).unwrap();
    assert!(matches!(cmd, KvCommand::Get { id: 6, .. }));
    assert!(KvCommand::from_decoded(None, None).is_none());
}
