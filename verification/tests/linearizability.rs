use std::collections::HashMap;

use std::sync::atomic::AtomicBool;

use dslabs::linearizability::checker::{check_events, check_history, check_operations, check_operations_part, check_single};
use dslabs::linearizability::bitset::Bitset;
use dslabs::linearizability::history::make_entries;
use dslabs::linearizability::kv_model::{KvInput, KvModel, KvOutput, Op};
use dslabs::linearizability::model::{events_are_paired, no_partition, Event, EventKind, Events, Model, Operation, Value};

/// A small deterministic generator of pseudo-random numbers.
struct Lcg(u64);

impl Lcg {
    fn next(&mut self, n: usize) -> usize {
        self.0 = self.0.wrapping_mul(6364136223846793005).wrapping_add(1442695040888963407);
        ((self.0 >> 33) % n as u64) as usize
    }
}

/// A log of a key/value store in Jepsen's format, as the clients saw it: each
/// operation takes effect at its invocation, while other clients' operations
/// are in flight. At most `spread` operations are in flight at once. With
/// `corrupt`, one read returns a value that was never written.
fn kv_log(clients: usize, ops: usize, keys: usize, spread: usize, seed: u64, corrupt: bool) -> Vec<String> {
    let mut rng = Lcg(seed);
    let mut store: HashMap<String, String> = HashMap::new();
    let mut pending: Vec<Option<(String, String, String)>> = vec![None; clients];
    let mut in_flight = 0;
    let mut done = 0;
    let mut counter = 0;
    let mut corrupted = !corrupt;
    let mut lines = Vec::new();
    while done < ops || in_flight > 0 {
        let c = rng.next(clients);
        match pending[c].take() {
            None => {
                if done + in_flight >= ops || in_flight >= spread {
                    continue;
                }
                let key = format!("{}", rng.next(keys));
                let f = ["get", "put", "append"][rng.next(3)];
                counter += 1;
                let value = format!("x {} {} y", c, counter);
                let current = store.get(&key).cloned().unwrap_or_default();
                let result = match f {
                    "get" => {
                        lines.push(format!("{{:process {}, :type :invoke, :f :get, :key \"{}\", :value nil}}", c, key));
                        if !corrupted && done > ops / 3 {
                            corrupted = true;
                            "never written".to_owned()
                        } else {
                            current
                        }
                    }
                    "put" => {
                        lines.push(format!("{{:process {}, :type :invoke, :f :put, :key \"{}\", :value \"{}\"}}", c, key, value));
                        store.insert(key.clone(), value.clone());
                        value.clone()
                    }
                    _ => {
                        lines.push(format!("{{:process {}, :type :invoke, :f :append, :key \"{}\", :value \"{}\"}}", c, key, value));
                        store.insert(key.clone(), current + &value);
                        value.clone()
                    }
                };
                pending[c] = Some((f.to_owned(), key, result));
                in_flight += 1;
            }
            Some((f, key, result)) => {
                lines.push(format!("{{:process {}, :type :ok, :f :{}, :key \"{}\", :value \"{}\"}}", c, f, key, result));
                in_flight -= 1;
                done += 1;
            }
        }
    }
    assert!(corrupted);
    lines
}

/// The field `name` of a log line: the text after `:name ` up to the next
/// comma or brace, without quotes.
fn field<'a>(line: &'a str, name: &str) -> &'a str {
    let tag = format!(":{} ", name);
    let start = line.find(&tag).unwrap() + tag.len();
    let rest = &line[start..];
    if let Some(quoted) = rest.strip_prefix('"') {
        &quoted[..quoted.find('"').unwrap()]
    } else {
        let end = rest.find(|c| c == ',' || c == '}').unwrap();
        rest[..end].trim_start_matches(':')
    }
}

/// The events of a log; a call that never returned returns at the end.
fn parse_kv_log(lines: &[String]) -> Events<KvInput, KvOutput> {
    let mut events = vec![];
    let mut id = 0;
    let mut procid_map: HashMap<usize, usize> = HashMap::new();
    for line in lines {
        let process: usize = field(line, "process").parse().unwrap();
        let f = field(line, "f");
        match field(line, "type") {
            "invoke" => {
                let op = match f {
                    "get" => Op::GET,
                    "put" => Op::PUT,
                    _ => Op::APPEND,
                };
                let value = if f == "get" { String::new() } else { field(line, "value").to_owned() };
                events.push(Event {
                    kind: EventKind::CallEvent,
                    value: Value::Input(KvInput { op, key: field(line, "key").to_owned(), value }),
                    id,
                });
                procid_map.insert(process, id);
                id += 1;
            }
            _ => {
                let match_id = procid_map.remove(&process).unwrap();
                let value = if f == "get" { field(line, "value").to_owned() } else { String::new() };
                events.push(Event { kind: EventKind::ReturnEvent, value: Value::Output(KvOutput { value }), id: match_id });
            }
        }
    }
    for (_, match_id) in procid_map {
        events.push(Event { kind: EventKind::ReturnEvent, value: Value::Output(KvOutput { value: String::new() }), id: match_id });
    }
    events
}

fn check_kv(lines: Vec<String>, correct: bool) {
    let events = parse_kv_log(&lines);
    assert_eq!(check_events(KvModel {}, events), correct);
}

#[test]
fn test_kv_1client_ok() {
    check_kv(kv_log(1, 200, 5, 1, 1, false), true)
}

#[test]
fn test_kv_1client_bad() {
    check_kv(kv_log(1, 200, 5, 1, 1, true), false)
}

#[test]
fn test_kv_10client_ok() {
    check_kv(kv_log(10, 300, 5, 4, 10, false), true)
}

#[test]
fn test_kv_10client_bad() {
    check_kv(kv_log(10, 300, 5, 4, 10, true), false)
}

#[test]
fn test_kv_50client_ok() {
    check_kv(kv_log(50, 500, 5, 5, 50, false), true)
}

#[test]
fn test_kv_50client_bad() {
    check_kv(kv_log(50, 500, 5, 5, 50, true), false)
}

fn kv_op(op: Op, key: &str, value: &str, output: &str, call: i64, finish: i64) -> Operation<KvInput, KvOutput> {
    Operation {
        input: KvInput { op, key: key.to_owned(), value: value.to_owned() },
        call,
        output: KvOutput { value: output.to_owned() },
        finish,
    }
}

#[test]
fn concurrent_read_may_see_either_value() {
    // the put and the get overlap: the get may come before it
    let ops = vec![
        kv_op(Op::PUT, "k", "a", "", 0, 10),
        kv_op(Op::GET, "k", "", "", 5, 7),
        kv_op(Op::GET, "k", "", "a", 11, 12),
    ];
    assert!(check_operations(KvModel {}, ops));
}

#[test]
fn read_after_write_must_see_it() {
    let ops = vec![kv_op(Op::PUT, "k", "a", "", 0, 1), kv_op(Op::GET, "k", "", "", 2, 3)];
    assert!(!check_operations(KvModel {}, ops));
}

#[test]
fn appends_build_up_a_value() {
    let ops = vec![
        kv_op(Op::APPEND, "k", "x", "", 0, 1),
        kv_op(Op::APPEND, "k", "y", "", 2, 3),
        kv_op(Op::GET, "k", "", "xy", 4, 5),
        kv_op(Op::GET, "other", "", "", 0, 5),
    ];
    assert!(check_operations(KvModel {}, ops));
    let wrong = vec![
        kv_op(Op::APPEND, "k", "x", "", 0, 1),
        kv_op(Op::APPEND, "k", "y", "", 2, 3),
        kv_op(Op::GET, "k", "", "yx", 4, 5),
    ];
    assert!(!check_operations(KvModel {}, wrong));
}

#[test]
fn empty_history_is_linearizable() {
    assert!(check_operations(KvModel {}, Vec::new()));
    assert!(check_events(KvModel {}, Vec::new()));
}

#[test]
fn a_full_search_decides_exactly() {
    let model = KvModel {};
    let ok = make_entries(vec![
        kv_op(Op::PUT, "k", "a", "", 0, 10),
        kv_op(Op::GET, "k", "", "", 5, 7),
        kv_op(Op::GET, "k", "", "a", 11, 12),
    ]);
    assert!(check_history(&model, &ok));
    let bad = make_entries(vec![kv_op(Op::PUT, "k", "a", "", 0, 1), kv_op(Op::GET, "k", "", "", 2, 3)]);
    assert!(!check_history(&model, &bad));
    let kill = AtomicBool::new(false);
    assert!(check_single(&model, &ok, &kill));
    assert!(!check_single(&model, &bad, &kill));
    let stopped = AtomicBool::new(true);
    assert!(!check_single(&model, &ok, &stopped));
}

#[test]
fn parts_are_checked_alone() {
    let model = KvModel {};
    let kill = AtomicBool::new(false);
    assert!(check_operations_part(&model, vec![kv_op(Op::APPEND, "k", "x", "", 0, 1), kv_op(Op::GET, "k", "", "x", 2, 3)], &kill));
    assert!(!check_operations_part(&model, vec![kv_op(Op::APPEND, "k", "x", "", 0, 1), kv_op(Op::GET, "k", "", "", 2, 3)], &kill));
}

#[test]
fn bitsets_set_clear_and_hash() {
    let mut a = Bitset::new(130);
    assert_eq!(a.0.len(), 3);
    let empty = Bitset::new(130);
    a.set(3);
    a.set(127);
    assert!(!a.equals(&empty));
    assert_ne!(a.hash(), empty.hash());
    let mut b = Bitset::new(130);
    b.set(127);
    b.set(3);
    assert!(a.equals(&b));
    assert_eq!(a.hash(), b.hash());
    // two bits set: popcount 2, combined with each word
    assert_eq!(a.hash(), 2 ^ (1u64 << 3) ^ (1u64 << 63));
    a.clear(3);
    a.clear(127);
    assert!(a.equals(&empty));
    assert_eq!(a.hash(), empty.hash());
    assert_eq!(empty.hash(), 0);
}

#[test]
fn clearing_a_new_bit_restores_every_word() {
    let mut a = Bitset::new(130);
    a.set(3);
    a.set(70);
    let before = a.clone();
    a.set(5);
    assert_eq!(a.0[0], (1u64 << 3) | (1u64 << 5));
    a.clear(5);
    assert_eq!(a.0, before.0);
    assert!(a.equals(&before));
}

#[test]
fn an_empty_history_is_answered_even_when_stopped() {
    let model = KvModel {};
    let stopped = AtomicBool::new(true);
    assert!(check_single(&model, &Vec::new(), &stopped));
    assert!(check_operations_part(&model, Vec::new(), &stopped));
    assert!(!check_operations_part(&model, vec![kv_op(Op::GET, "k", "", "", 0, 1)], &stopped));
}

#[test]
fn partition_groups_operations_by_key_in_order() {
    let model = KvModel {};
    let ops = vec![
        kv_op(Op::PUT, "a", "1", "", 0, 1),
        kv_op(Op::PUT, "b", "2", "", 2, 3),
        kv_op(Op::GET, "a", "", "1", 4, 5),
        kv_op(Op::APPEND, "c", "3", "", 6, 7),
        kv_op(Op::GET, "b", "", "2", 8, 9),
    ];
    let parts = model.partition(ops);
    assert_eq!(parts.len(), 3);
    let keys: Vec<Vec<&str>> = parts.iter().map(|p| p.iter().map(|o| o.input.key.as_str()).collect()).collect();
    assert_eq!(keys, vec![vec!["a", "a"], vec!["b", "b"], vec!["c"]]);
    let calls: Vec<Vec<i64>> = parts.iter().map(|p| p.iter().map(|o| o.call).collect()).collect();
    assert_eq!(calls, vec![vec![0, 4], vec![2, 8], vec![6]]);
}

#[test]
fn partition_event_follows_each_return_to_its_call() {
    let model = KvModel {};
    let call = |key: &str, id: usize| Event {
        kind: EventKind::CallEvent,
        value: Value::Input(KvInput { op: Op::GET, key: key.to_owned(), value: String::new() }),
        id,
    };
    let ret = |id: usize| Event { kind: EventKind::ReturnEvent, value: Value::Output(KvOutput { value: String::new() }), id };
    let events: Events<KvInput, KvOutput> = vec![call("x", 0), call("y", 1), ret(1), ret(0), call("x", 2), ret(2)];
    let parts = model.partition_event(events);
    let ids: Vec<Vec<usize>> = parts.iter().map(|p| p.iter().map(|e| e.id).collect()).collect();
    assert_eq!(ids, vec![vec![0, 0, 2, 2], vec![1, 1]]);
}

#[test]
fn a_put_called_during_a_get_may_come_first() {
    let ops = vec![kv_op(Op::GET, "k", "", "a", 0, 5), kv_op(Op::PUT, "k", "a", "", 1, 2)];
    assert!(check_operations(KvModel {}, ops));
}

#[test]
fn reads_of_different_keys_are_checked_apart() {
    // one string for all keys would refuse this history; by key it is fine
    let ops = vec![kv_op(Op::PUT, "k1", "a", "", 0, 1), kv_op(Op::GET, "k2", "", "", 2, 3)];
    assert!(check_operations(KvModel {}, ops));
}

#[test]
fn a_failed_read_leaves_the_state() {
    let model = KvModel {};
    let state = "v".to_owned();
    let get = KvInput { op: Op::GET, key: "k".to_owned(), value: String::new() };
    let (ok, next) = model.step(&state, &get, &KvOutput { value: "w".to_owned() });
    assert!(!ok);
    assert_eq!(next, "v");
    let append = KvInput { op: Op::APPEND, key: "k".to_owned(), value: "x".to_owned() };
    assert_eq!(model.step(&state, &append, &KvOutput { value: String::new() }), (true, "vx".to_owned()));
}

#[test]
fn a_history_of_one_key_is_one_part() {
    let model = KvModel {};
    let ops = vec![kv_op(Op::PUT, "k", "a", "", 0, 1), kv_op(Op::GET, "k", "", "a", 2, 3), kv_op(Op::APPEND, "k", "b", "", 4, 5)];
    let parts = model.partition(ops.clone());
    assert_eq!(parts.len(), 1);
    let calls: Vec<i64> = parts[0].iter().map(|o| o.call).collect();
    assert_eq!(calls, vec![0, 2, 4]);
    assert!(check_operations(KvModel {}, ops));
}

#[test]
fn no_partition_keeps_the_whole_history() {
    let ops = vec![kv_op(Op::PUT, "a", "1", "", 0, 1), kv_op(Op::PUT, "b", "2", "", 2, 3)];
    let parts = no_partition(ops);
    assert_eq!(parts.len(), 1);
    assert_eq!(parts[0].len(), 2);
    assert_eq!(parts[0][1].input.key, "b");
}

#[test]
fn histories_of_paired_events() {
    let call = |id: usize| Event {
        kind: EventKind::CallEvent,
        value: Value::Input(KvInput { op: Op::GET, key: "k".to_owned(), value: String::new() }),
        id,
    };
    let ret = |id: usize| Event { kind: EventKind::ReturnEvent, value: Value::Output(KvOutput { value: String::new() }), id };
    let ok: Events<KvInput, KvOutput> = vec![call(0), call(1), ret(1), ret(0)];
    assert!(events_are_paired(&ok));
    let early: Events<KvInput, KvOutput> = vec![ret(0), call(0)];
    assert!(!events_are_paired(&early));
    let wrong: Events<KvInput, KvOutput> =
        vec![Event { kind: EventKind::CallEvent, value: Value::Output(KvOutput { value: String::new() }), id: 0 }];
    assert!(!events_are_paired(&wrong));
    assert!(events_are_paired(&Vec::<Event<Value<KvInput, KvOutput>>>::new()));
}
