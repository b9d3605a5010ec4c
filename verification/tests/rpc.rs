use dslabs::labrpc::{draw_rpc_fate, reply_fate, rpc_fate, split_name, Endpoints, ReplyFate, RpcDraws, RpcFate, ServiceTable};
#[test]
fn lib_test_basic() {
    // The network test this names is still to be written upstream: its body
    // holds no check.
}

fn draws(short: u64, drop_request: u64, drop_reply: u64, reorder: i32, long: u64, dead: u64) -> RpcDraws {
    RpcDraws { short, drop_request, drop_reply, reorder, bound: 1999, long, dead }
}

#[test]
fn a_reliable_network_delivers_at_once() {
    let f = rpc_fate(true, true, true, false, false, draws(50, 0, 0, 0, 0, 0));
    assert_eq!(f, RpcFate::Deliver { delay: None, drop_reply: false, reorder: None });
}

#[test]
fn an_unreliable_network_loses_a_tenth_of_the_requests() {
    assert_eq!(rpc_fate(true, true, false, false, false, draws(30, 1099, 0, 0, 0, 0)), RpcFate::DropRequest { timeout_after: 3 });
    let f = rpc_fate(true, true, false, false, false, draws(30, 1100, 2050, 0, 0, 0));
    assert_eq!(f, RpcFate::Deliver { delay: Some(3), drop_reply: true, reorder: None });
    let f = rpc_fate(true, true, false, false, false, draws(30, 1100, 2100, 0, 0, 0));
    assert_eq!(f, RpcFate::Deliver { delay: Some(3), drop_reply: false, reorder: None });
}

#[test]
fn long_reordering_holds_back_replies() {
    let f = rpc_fate(true, true, true, true, false, draws(0, 0, 0, 599, 1234, 0));
    assert_eq!(f, RpcFate::Deliver { delay: None, drop_reply: false, reorder: Some(1434) });
    let f = rpc_fate(true, true, true, true, false, draws(0, 0, 0, 600, 1234, 0));
    assert_eq!(f, RpcFate::Deliver { delay: None, drop_reply: false, reorder: None });
}

#[test]
fn a_call_without_a_server_times_out() {
    assert_eq!(rpc_fate(true, false, true, false, false, draws(0, 0, 0, 0, 0, 12345)), RpcFate::NoServer { timeout_after: 45 });
    assert_eq!(rpc_fate(false, true, true, false, true, draws(0, 0, 0, 0, 0, 12345)), RpcFate::NoServer { timeout_after: 5345 });
}

#[test]
fn drawn_fates_keep_to_their_ranges() {
    for _ in 0..200 {
        match draw_rpc_fate(true, true, false, true, false) {
            RpcFate::DropRequest { timeout_after } => assert!(timeout_after < 27),
            RpcFate::Deliver { delay, reorder, .. } => {
                assert!(delay.unwrap() < 27);
                if let Some(r) = reorder {
                    assert!((200..2200).contains(&r));
                }
            }
            RpcFate::NoServer { .. } => panic!("a server was connected"),
        }
    }
}

#[test]
fn a_full_name_splits_at_its_dots() {
    assert_eq!(split_name("raft.append_entries"), Some(("raft".to_owned(), "append_entries".to_owned())));
    assert_eq!(split_name("kv.get.extra"), Some(("kv".to_owned(), "get".to_owned())));
    assert_eq!(split_name(".x"), Some((String::new(), "x".to_owned())));
    assert_eq!(split_name("raft"), None);
}

#[test]
fn a_service_registers_once() {
    let mut table: ServiceTable<u32> = ServiceTable::new();
    assert_eq!(table.add_service("raft", 1), Ok(()));
    assert_eq!(table.add_service("kv", 2), Ok(()));
    assert_eq!(table.add_service("raft", 3), Err("raft has already registered".to_owned()));
    assert_eq!(table.find("kv"), Some(1));
    assert_eq!(*table.factory(0), 1);
    assert_eq!(table.find("junk"), None);
}

#[test]
fn calls_are_routed_to_their_service() {
    let mut table: ServiceTable<&str> = ServiceTable::new();
    table.add_service("junk", "junk handlers").unwrap();
    assert_eq!(table.route("junk.handler2"), Ok((0, "handler2".to_owned())));
    assert_eq!(table.route("nobody.handler2"), Err("unknown nobody.handler2".to_owned()));
    assert_eq!(table.route("junk"), Err("unknown junk".to_owned()));
}

#[test]
fn replies_meet_their_fate() {
    assert_eq!(reply_fate(true, true, Some(5)), ReplyFate::Stopped);
    assert_eq!(reply_fate(false, true, Some(5)), ReplyFate::TimedOut);
    assert_eq!(reply_fate(false, false, Some(5)), ReplyFate::Reply { hold: Some(5) });
    assert_eq!(reply_fate(false, false, None), ReplyFate::Reply { hold: None });
}

#[test]
fn ends_reach_the_servers_they_connect_to() {
    let mut eps = Endpoints::new();
    eps.create_client("end".to_owned());
    assert_eq!(eps.end_info("end"), (false, None));
    eps.add_server("s".to_owned(), 7);
    eps.connect("end", "s");
    assert_eq!(eps.end_info("end"), (false, Some(7)));
    assert!(eps.is_server_dead("end", "s", 7));
    eps.enable("end", true);
    assert_eq!(eps.end_info("end"), (true, Some(7)));
    assert!(!eps.is_server_dead("end", "s", 7));
    assert!(eps.is_server_dead("end", "s", 8));
    assert!(eps.is_server_dead("end", "other", 7));
    eps.delete_server("s");
    assert_eq!(eps.end_info("end"), (true, None));
    assert!(eps.is_server_dead("end", "s", 7));
    eps.add_server("s".to_owned(), 9);
    assert_eq!(eps.end_info("end"), (true, Some(9)));
}
