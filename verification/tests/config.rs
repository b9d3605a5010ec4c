use dslabs::kv::clerk::Clerk;
use dslabs::kv::config::{Config, Error};

fn names(row: usize, n: usize) -> Vec<String> {
    (0..n).map(|j| format!("e{}-{}", row, j)).collect()
}

fn started(n: usize) -> Config {
    let mut cfg = Config::new(n, Some(1000));
    for i in 0..n {
        cfg.start_server(i, names(i, n));
    }
    cfg
}

fn on(name: &str) -> (String, bool) {
    (name.to_owned(), true)
}

fn off(name: &str) -> (String, bool) {
    (name.to_owned(), false)
}

#[test]
fn a_new_configuration_is_empty() {
    let cfg = Config::new(3, None);
    assert_eq!(cfg.n, 3);
    assert_eq!(cfg.all(), vec![0, 1, 2]);
    assert_eq!(cfg.log_size(), 0);
    assert_eq!(cfg.snapshot_size(), 0);
    let toggles = cfg.connect_all();
    assert_eq!(toggles.len(), 3 * 6);
    assert!(toggles.iter().all(|t| t.0.is_empty() && t.1));
}

#[test]
fn connect_all_links_each_server_with_every_server() {
    let cfg = started(2);
    assert_eq!(
        cfg.connect_all(),
        vec![on("e0-0"), on("e0-1"), on("e0-0"), on("e1-0"), on("e1-0"), on("e1-1"), on("e0-1"), on("e1-1")]
    );
}

#[test]
fn partition_cuts_links_across_groups() {
    let cfg = started(3);
    let toggles = cfg.partition(&vec![0, 1], &vec![2]);
    assert_eq!(
        toggles,
        vec![
            // server 0: cut from 2, linked with 0 and 1
            off("e0-2"), off("e2-0"),
            on("e0-0"), on("e0-1"), on("e0-0"), on("e1-0"),
            // server 1
            off("e1-2"), off("e2-1"),
            on("e1-0"), on("e1-1"), on("e0-1"), on("e1-1"),
            // server 2: cut from 0 and 1, linked with itself
            off("e2-0"), off("e2-1"), off("e0-2"), off("e1-2"),
            on("e2-2"), on("e2-2"),
        ]
    );
}

#[test]
fn the_first_leader_is_found() {
    let cfg = started(3);
    assert_eq!(cfg.leader(&vec![false, true, true]), Ok(1));
    assert_eq!(cfg.leader(&vec![false, false, false]), Err(Error::NoLeader));
}

#[test]
fn the_leader_goes_to_the_minority() {
    let cfg = started(5);
    let (p1, p2) = cfg.make_partition(&vec![false, false, true, false, false]);
    assert_eq!(p1, vec![0, 1, 3]);
    assert_eq!(p2, vec![4, 2]);
    let (p1, p2) = cfg.make_partition(&vec![false; 5]);
    assert_eq!(p1, vec![1, 2, 3]);
    assert_eq!(p2, vec![4, 0]);
    let cfg = started(3);
    let (p1, p2) = cfg.make_partition(&vec![true, false, false]);
    assert_eq!(p1, vec![1, 2]);
    assert_eq!(p2, vec![0]);
}

#[test]
fn a_shut_down_server_is_cut_off() {
    let mut cfg = started(2);
    let toggles = cfg.shutdown_server(1);
    assert_eq!(toggles, vec![off("e1-0"), off("e1-1"), off("e0-1"), off("e1-1")]);
    assert_eq!(cfg.log_size(), 0);
}

#[test]
fn clerks_are_linked_with_their_servers() {
    let mut cfg = started(3);
    let toggles = cfg.add_client("ck".to_owned(), vec!["c0".to_owned(), "c1".to_owned(), "c2".to_owned()], &vec![2, 0]);
    assert_eq!(toggles, vec![on("c2"), on("c0")]);
    assert_eq!(cfg.connect_client_by_name("ck", &vec![1]), vec![on("c1")]);
    let ck: Clerk<u8> = Clerk::new("ck".to_owned(), vec![]);
    assert_eq!(cfg.connect_client(&ck, &vec![0, 1, 2]), vec![on("c0"), on("c1"), on("c2")]);
    cfg.delete_client(&ck);
    cfg.op();
    cfg.op();
}
