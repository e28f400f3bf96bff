//! Sharded key-value scenarios over a hash-partitioned store node, and
//! unit coverage of the storage, distribution and migration checks.

use std::collections::HashMap;

use dsim::msg::{Message, Payload, Value};
use dsim::node::{Actions, Node};
use dsim::rng::SimRng;
use dsim::sharding::{
    check_delete, check_distribution, check_get, check_moved_keys, check_put, check_storage,
    count_records, dump_keys, step_until_counts_stable, ShardViolation,
};
use dsim::system::System;
use dsim::textgen::rand_string;

fn msg1(tip: &str, k: &str, v: &str) -> Message {
    Message {
        tip: String::from(tip),
        payload: Payload { fields: vec![(String::from(k), Value::S(String::from(v)))] },
    }
}

fn get_s(m: &Message, name: &str) -> Option<String> {
    match m.payload.get(name) {
        Some(Value::S(s)) => Some(s.clone()),
        _ => None,
    }
}

/// A store sharded by key digest over the live node list: requests are
/// forwarded to the key's owner, and a membership change migrates every
/// key to its new owner.
struct StorageNode {
    id: String,
    live: Vec<String>,
    store: HashMap<String, String>,
}

impl StorageNode {
    fn owner(&self, key: &str) -> String {
        let digest = md5::compute(key.as_bytes());
        let h = u128::from_le_bytes(digest.0);
        let idx = (h % self.live.len() as u128) as usize;
        self.live[idx].clone()
    }

    fn local_reply(tip: &str, key: &str, value: Option<&String>) -> Message {
        let v = match value {
            Some(s) => Value::S(s.clone()),
            None => Value::Null,
        };
        Message {
            tip: String::from(tip),
            payload: Payload {
                fields: vec![
                    (String::from("key"), Value::S(String::from(key))),
                    (String::from("value"), v),
                ],
            },
        }
    }

    fn migrate_all(&mut self) -> Vec<(String, Message)> {
        let mut sends = Vec::new();
        let keys: Vec<String> = self.store.keys().cloned().collect();
        for k in keys {
            let owner = self.owner(&k);
            if owner != self.id {
                let v = self.store.remove(&k).unwrap();
                sends.push((
                    owner,
                    Message {
                        tip: String::from("MIGRATE"),
                        payload: Payload {
                            fields: vec![
                                (String::from("key"), Value::S(k)),
                                (String::from("value"), Value::S(v)),
                            ],
                        },
                    },
                ));
            }
        }
        sends
    }
}

impl Node for StorageNode {
    fn on_message(&mut self, src: String, msg: Message, _time: u64) -> Actions {
        let key = get_s(&msg, "key").unwrap_or_default();
        match msg.tip.as_str() {
            "RGET" => {
                let val = self.store.get(&key).cloned();
                let reply = Self::local_reply("RGET_RESP", &key, val.as_ref());
                Actions { sends: vec![(src, reply)], timers: vec![], cancels: vec![], locals: vec![] }
            },
            "RPUT" => {
                let value = get_s(&msg, "value").unwrap_or_default();
                self.store.insert(key.clone(), value.clone());
                let reply = Self::local_reply("RPUT_RESP", &key, Some(&value));
                Actions { sends: vec![(src, reply)], timers: vec![], cancels: vec![], locals: vec![] }
            },
            "RDEL" => {
                let old = self.store.remove(&key);
                let reply = Self::local_reply("RDEL_RESP", &key, old.as_ref());
                Actions { sends: vec![(src, reply)], timers: vec![], cancels: vec![], locals: vec![] }
            },
            "RGET_RESP" => Actions {
                sends: vec![],
                timers: vec![],
                cancels: vec![],
                locals: vec![Self::local_reply("GET_RESP", &key, get_s(&msg, "value").as_ref())],
            },
            "RPUT_RESP" => Actions {
                sends: vec![],
                timers: vec![],
                cancels: vec![],
                locals: vec![Self::local_reply("PUT_RESP", &key, get_s(&msg, "value").as_ref())],
            },
            "RDEL_RESP" => Actions {
                sends: vec![],
                timers: vec![],
                cancels: vec![],
                locals: vec![Self::local_reply("DELETE_RESP", &key, get_s(&msg, "value").as_ref())],
            },
            "MIGRATE" => {
                let value = get_s(&msg, "value").unwrap_or_default();
                self.store.insert(key, value);
                Actions::new()
            },
            _ => Actions::new(),
        }
    }

    fn on_timer(&mut self, _name: String, _time: u64) -> Actions {
        Actions::new()
    }

    fn on_local(&mut self, msg: Message, _time: u64) -> Actions {
        match msg.tip.as_str() {
            "GET" | "PUT" | "DELETE" => {
                let key = get_s(&msg, "key").unwrap_or_default();
                let owner = self.owner(&key);
                if owner == self.id {
                    // serve locally
                    let local = match msg.tip.as_str() {
                        "GET" => {
                            let v = self.store.get(&key).cloned();
                            Self::local_reply("GET_RESP", &key, v.as_ref())
                        },
                        "PUT" => {
                            let value = get_s(&msg, "value").unwrap_or_default();
                            self.store.insert(key.clone(), value.clone());
                            Self::local_reply("PUT_RESP", &key, Some(&value))
                        },
                        _ => {
                            let old = self.store.remove(&key);
                            Self::local_reply("DELETE_RESP", &key, old.as_ref())
                        },
                    };
                    return Actions {
                        sends: vec![],
                        timers: vec![],
                        cancels: vec![],
                        locals: vec![local],
                    };
                }
                let fwd = match msg.tip.as_str() {
                    "GET" => msg1("RGET", "key", &key),
                    "PUT" => {
                        let value = get_s(&msg, "value").unwrap_or_default();
                        Message {
                            tip: String::from("RPUT"),
                            payload: Payload {
                                fields: vec![
                                    (String::from("key"), Value::S(key)),
                                    (String::from("value"), Value::S(value)),
                                ],
                            },
                        }
                    },
                    _ => msg1("RDEL", "key", &key),
                };
                Actions { sends: vec![(owner, fwd)], timers: vec![], cancels: vec![], locals: vec![] }
            },
            "DUMP_KEYS" => {
                let mut keys: Vec<String> = self.store.keys().cloned().collect();
                keys.sort();
                Actions {
                    sends: vec![],
                    timers: vec![],
                    cancels: vec![],
                    locals: vec![Message {
                        tip: String::from("DUMP_KEYS_RESP"),
                        payload: Payload { fields: vec![(String::from("keys"), Value::A(keys))] },
                    }],
                }
            },
            "COUNT_RECORDS" => Actions {
                sends: vec![],
                timers: vec![],
                cancels: vec![],
                locals: vec![Message {
                    tip: String::from("COUNT_RECORDS_RESP"),
                    payload: Payload {
                        fields: vec![(String::from("count"), Value::N(self.store.len() as u64))],
                    },
                }],
            },
            "NODE_REMOVED" => {
                let gone = get_s(&msg, "id").unwrap_or_default();
                self.live.retain(|x| *x != gone);
                let sends = self.migrate_all();
                Actions { sends, timers: vec![], cancels: vec![], locals: vec![] }
            },
            "NODE_ADDED" => {
                let added = get_s(&msg, "id").unwrap_or_default();
                if !self.live.contains(&added) {
                    self.live.push(added);
                    self.live.sort();
                }
                let sends = self.migrate_all();
                Actions { sends, timers: vec![], cancels: vec![], locals: vec![] }
            },
            _ => Actions::new(),
        }
    }

    fn memory_size(&self) -> u64 {
        self.store.len() as u64
    }
}

fn build(seed: u64, n: usize) -> (System<StorageNode>, Vec<String>) {
    let mut sys: System<StorageNode> = System::with_seed(seed);
    sys.set_delays(10_000, 100_000);
    let mut ids: Vec<String> = (0..n).map(|i| i.to_string()).collect();
    ids.sort();
    for id in &ids {
        sys.add_node(
            id,
            StorageNode { id: id.clone(), live: ids.clone(), store: HashMap::new() },
        );
    }
    (sys, ids)
}

fn random_keys(rng: &mut SimRng, count: usize) -> Vec<(String, String)> {
    let mut seen = std::collections::HashSet::new();
    let mut out = Vec::new();
    while out.len() < count {
        let k = rand_string(rng, 8).to_uppercase();
        let v = rand_string(rng, 8);
        if seen.insert(k.clone()) {
            out.push((k, v));
        }
    }
    out
}

#[test]
fn single_node_get_put_delete_roundtrip() {
    let (mut sys, _) = build(123, 1);
    let key = String::from("ALPHA");
    let val = String::from("beta");
    assert_eq!(sys_get(&mut sys, "0", &key, None), Ok(()));
    assert_eq!(check_put(&mut sys, "0", &key, &val, 200), Ok(()));
    assert_eq!(sys_get(&mut sys, "0", &key, Some(&val)), Ok(()));
    assert_eq!(check_delete(&mut sys, "0", &key, Some(&val), 200), Ok(()));
    assert_eq!(sys_get(&mut sys, "0", &key, None), Ok(()));
    assert_eq!(check_delete(&mut sys, "0", &key, None, 200), Ok(()));
}

#[test]
fn deletes_are_visible_from_other_nodes() {
    let (mut sys, ids) = build(7, 10);
    let mut rng = SimRng::with_seed(7);
    let kv = random_keys(&mut rng, 10);
    for (k, v) in &kv {
        assert_eq!(check_put(&mut sys, &ids[0], k, v, 500), Ok(()));
    }
    for (i, (k, v)) in kv.iter().enumerate() {
        let reader = &ids[i % ids.len()];
        let deleter = &ids[(i + 3) % ids.len()];
        assert_eq!(sys_get(&mut sys, reader, k, Some(v)), Ok(()));
        assert_eq!(check_delete(&mut sys, deleter, k, Some(v), 500), Ok(()));
        assert_eq!(sys_get(&mut sys, reader, k, None), Ok(()));
    }
}

#[test]
fn added_node_takes_a_bounded_share() {
    let (mut sys, mut ids) = build(42, 10);
    let mut rng = SimRng::with_seed(42);
    let kv = random_keys(&mut rng, 200);
    for (k, v) in &kv {
        let pick = rng.next_below(ids.len() as u64) as usize;
        assert_eq!(check_put(&mut sys, &ids[pick], k, v, 500), Ok(()));
    }
    let mut before = Vec::new();
    for id in &ids {
        before.push(dump_keys(&mut sys, id, 500).unwrap());
    }

    // an eleventh node joins and every node learns of it
    let added = String::from("10");
    sys.add_node(
        &added,
        StorageNode {
            id: added.clone(),
            live: {
                let mut l = ids.clone();
                l.push(added.clone());
                l.sort();
                l
            },
            store: HashMap::new(),
        },
    );
    for id in &ids {
        sys.send_local(msg1("NODE_ADDED", "id", &added), id);
    }
    ids.push(added);
    let counts = step_until_counts_stable(&mut sys, &ids, 200, 200, 100).unwrap();
    assert_eq!(counts.len(), ids.len());

    let mut after = Vec::new();
    for id in &ids {
        after.push(dump_keys(&mut sys, id, 500).unwrap());
    }
    let expected: Vec<String> = kv.iter().map(|(k, _)| k.clone()).collect();
    assert_eq!(check_storage(&after, &expected), Ok(()));
    // with a modulus change almost every key may move; the bound over
    // the whole population must still hold
    let moved_budget = 200;
    before.push(Vec::new());
    assert!(check_moved_keys(&before, &after, moved_budget).is_ok());
}

fn sys_get(
    sys: &mut System<StorageNode>,
    node: &str,
    key: &str,
    expected: Option<&String>,
) -> Result<(), String> {
    check_get(sys, node, key, expected, 500)
}

#[test]
fn values_are_readable_from_every_node() {
    let (mut sys, ids) = build(123, 10);
    let mut rng = SimRng::with_seed(123);
    let kv = random_keys(&mut rng, 10);
    for (i, (k, v)) in kv.iter().enumerate() {
        let node = &ids[i % ids.len()];
        assert_eq!(check_put(&mut sys, node, k, v, 500), Ok(()));
    }
    for (k, v) in &kv {
        for node in &ids {
            assert_eq!(sys_get(&mut sys, node, k, Some(v)), Ok(()));
        }
    }
}

#[test]
fn removed_node_hands_every_key_over() {
    let (mut sys, ids) = build(123, 10);
    let mut rng = SimRng::with_seed(123);
    let kv = random_keys(&mut rng, 100);
    for (k, v) in &kv {
        let pick = rng.next_below(ids.len() as u64) as usize;
        assert_eq!(check_put(&mut sys, &ids[pick], k, v, 500), Ok(()));
    }

    // pick a node that stores something, then remove it
    let mut removed = ids[0].clone();
    for id in &ids {
        if count_records(&mut sys, id, 500).unwrap() > 0 {
            removed = id.clone();
            break;
        }
    }
    for id in &ids {
        sys.send_local(msg1("NODE_REMOVED", "id", &removed), id);
    }
    let survivors: Vec<String> = ids.iter().filter(|x| **x != removed).cloned().collect();
    let counts = step_until_counts_stable(&mut sys, &survivors, 100, 200, 100).unwrap();
    assert_eq!(counts.len(), survivors.len());

    // the nine survivors collectively store exactly the hundred keys,
    // each on exactly one node
    let mut node_keys = Vec::new();
    for id in &survivors {
        node_keys.push(dump_keys(&mut sys, id, 500).unwrap());
    }
    let expected: Vec<String> = kv.iter().map(|(k, _)| k.clone()).collect();
    assert_eq!(check_storage(&node_keys, &expected), Ok(()));

    // every read returns the original value
    for (i, (k, v)) in kv.iter().enumerate() {
        let node = &survivors[i % survivors.len()];
        assert_eq!(sys_get(&mut sys, node, k, Some(v)), Ok(()));
    }
}

#[test]
fn storage_checks_flag_violations() {
    let a = vec![String::from("K1"), String::from("K2")];
    let b = vec![String::from("K3")];
    let expected = vec![String::from("K1"), String::from("K2"), String::from("K3")];
    assert_eq!(check_storage(&vec![a.clone(), b.clone()], &expected), Ok(()));
    // a key stored twice
    let dup = vec![vec![String::from("K1")], vec![String::from("K1"), String::from("K3")]];
    assert_eq!(
        check_storage(&dup, &expected),
        Err(ShardViolation::MultipleOwners)
    );
    // a stored key nobody expected
    let alien = vec![vec![String::from("K9")], b.clone()];
    assert_eq!(
        check_storage(&alien, &expected),
        Err(ShardViolation::KeysMismatch)
    );
    // an expected key nobody stores
    let missing = vec![a, vec![]];
    assert_eq!(
        check_storage(&missing, &expected),
        Err(ShardViolation::KeysMismatch)
    );
}

#[test]
fn distribution_check_is_a_ten_percent_bound() {
    // 100 keys over 4 nodes: target 25, a tenth is 2 (integer scaled)
    assert!(check_distribution(&vec![25, 25, 25, 25], 100));
    assert!(check_distribution(&vec![27, 23, 25, 25], 100));
    assert!(!check_distribution(&vec![28, 22, 25, 25], 100));
}

#[test]
fn moved_keys_check_bounds_migration() {
    let before = vec![
        vec![String::from("A"), String::from("B")],
        vec![String::from("C"), String::from("D")],
    ];
    // one key moved, three stayed
    let after_ok = vec![
        vec![String::from("A"), String::from("B")],
        vec![String::from("D")],
    ];
    assert!(check_moved_keys(&before, &after_ok, 1).is_ok());
    // three keys moved against a target of one
    let after_bad = vec![
        vec![String::from("C"), String::from("D")],
        vec![String::from("A")],
    ];
    assert!(check_moved_keys(&before, &after_bad, 1).is_err());
}
