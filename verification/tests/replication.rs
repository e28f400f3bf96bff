//! Quorum-replication scenarios over a multi-value register node with
//! version-vector contexts, and unit coverage of replica placement and
//! cart payloads.

use std::collections::{BTreeMap, HashMap};

use dsim::msg::{Message, Payload, Value};
use dsim::node::{Actions, LocalKind, Node};
use dsim::replication::{cart_key, check_cart_values, check_get, check_put, key_non_replicas,
    key_replicas, split_commas};
use dsim::rng::SimRng;
use dsim::system::System;
use dsim::textgen::rand_string;

type Vv = BTreeMap<String, u64>;

fn vv_encode(vv: &Vv) -> String {
    let mut parts: Vec<String> = Vec::new();
    for (k, v) in vv {
        parts.push(format!("{}:{}", k, v));
    }
    parts.join(";")
}

fn vv_decode(s: &str) -> Vv {
    let mut vv = Vv::new();
    if s.is_empty() {
        return vv;
    }
    for part in s.split(';') {
        if let Some((k, v)) = part.split_once(':') {
            vv.insert(String::from(k), v.parse().unwrap_or(0));
        }
    }
    vv
}

fn dominates(a: &Vv, b: &Vv) -> bool {
    b.iter().all(|(k, v)| a.get(k).copied().unwrap_or(0) >= *v)
}

fn merge_max(a: &Vv, b: &Vv) -> Vv {
    let mut out = a.clone();
    for (k, v) in b {
        let e = out.entry(k.clone()).or_insert(0);
        if *v > *e {
            *e = *v;
        }
    }
    out
}

/// Inserts a sibling, dropping everything it dominates and ignoring it
/// when an existing sibling already dominates it.
fn absorb(siblings: &mut Vec<(Vv, String)>, vv: Vv, value: String) {
    if siblings.iter().any(|(e, _)| dominates(e, &vv)) {
        return;
    }
    siblings.retain(|(e, _)| !dominates(&vv, e));
    siblings.push((vv, value));
}

struct PendingOp {
    is_get: bool,
    quorum: u64,
    acks: u64,
    gathered: Vec<(Vv, String)>,
    value: String,
    vv: Vv,
}

/// A quorum-replicated multi-value register: three replicas per key by
/// digest placement, version-vector contexts, and sibling surfacing on
/// concurrent writes.
struct QuorumNode {
    id: String,
    n: u64,
    store: HashMap<String, Vec<(Vv, String)>>,
    pending: HashMap<String, PendingOp>,
}

fn field_s(m: &Message, name: &str) -> Option<String> {
    match m.payload.get(name) {
        Some(Value::S(s)) => Some(s.clone()),
        _ => None,
    }
}

fn field_n(m: &Message, name: &str) -> Option<u64> {
    match m.payload.get(name) {
        Some(Value::N(n)) => Some(*n),
        _ => None,
    }
}

fn field_a(m: &Message, name: &str) -> Vec<String> {
    match m.payload.get(name) {
        Some(Value::A(v)) => v.clone(),
        _ => Vec::new(),
    }
}

fn build_msg(tip: &str, fields: Vec<(&str, Value)>) -> Message {
    Message {
        tip: String::from(tip),
        payload: Payload {
            fields: fields.into_iter().map(|(k, v)| (String::from(k), v)).collect(),
        },
    }
}

impl QuorumNode {
    fn replicas(&self, key: &str) -> Vec<String> {
        key_replicas(key, self.n)
    }

    fn siblings_payload(&self, key: &str) -> (Vec<String>, Vec<String>) {
        let empty = Vec::new();
        let sib = self.store.get(key).unwrap_or(&empty);
        let vals = sib.iter().map(|(_, v)| v.clone()).collect();
        let ctxs = sib.iter().map(|(vv, _)| vv_encode(vv)).collect();
        (vals, ctxs)
    }
}

impl Node for QuorumNode {
    fn on_message(&mut self, src: String, msg: Message, _time: u64) -> Actions {
        let key = field_s(&msg, "key").unwrap_or_default();
        match msg.tip.as_str() {
            "RPUT" => {
                let value = field_s(&msg, "value").unwrap_or_default();
                let vv = vv_decode(&field_s(&msg, "vv").unwrap_or_default());
                let siblings = self.store.entry(key.clone()).or_default();
                absorb(siblings, vv, value);
                let ack = build_msg("RPUT_ACK", vec![("key", Value::S(key))]);
                Actions { sends: vec![(src, ack)], timers: vec![], cancels: vec![], locals: vec![] }
            },
            "RPUT_ACK" => {
                let mut done = false;
                if let Some(p) = self.pending.get_mut(&key) {
                    if !p.is_get {
                        p.acks += 1;
                        if p.acks >= p.quorum {
                            done = true;
                        }
                    }
                }
                if done {
                    let p = self.pending.remove(&key).unwrap();
                    let resp = build_msg(
                        "PUT_RESP",
                        vec![
                            ("key", Value::S(key)),
                            ("values", Value::A(vec![p.value.clone()])),
                            ("context", Value::S(vv_encode(&p.vv))),
                        ],
                    );
                    return Actions {
                        sends: vec![],
                        timers: vec![],
                        cancels: vec![],
                        locals: vec![resp],
                    };
                }
                Actions::new()
            },
            "RGET" => {
                let (vals, ctxs) = self.siblings_payload(&key);
                let resp = build_msg(
                    "RGET_RESP",
                    vec![
                        ("key", Value::S(key)),
                        ("vals", Value::A(vals)),
                        ("ctxs", Value::A(ctxs)),
                    ],
                );
                Actions { sends: vec![(src, resp)], timers: vec![], cancels: vec![], locals: vec![] }
            },
            "RGET_RESP" => {
                let vals = field_a(&msg, "vals");
                let ctxs = field_a(&msg, "ctxs");
                let mut done = false;
                if let Some(p) = self.pending.get_mut(&key) {
                    if p.is_get {
                        for (v, c) in vals.iter().zip(ctxs.iter()) {
                            absorb(&mut p.gathered, vv_decode(c), v.clone());
                        }
                        p.acks += 1;
                        if p.acks >= p.quorum {
                            done = true;
                        }
                    }
                }
                if done {
                    let p = self.pending.remove(&key).unwrap();
                    let mut merged = Vv::new();
                    let mut values = Vec::new();
                    for (vv, v) in &p.gathered {
                        merged = merge_max(&merged, vv);
                        values.push(v.clone());
                    }
                    if cart_key(&key) && values.len() > 1 {
                        // cart keys merge concurrent siblings by item union
                        let mut items: Vec<String> = Vec::new();
                        for v in &values {
                            for item in v.split(',') {
                                if !item.is_empty() && !items.iter().any(|x| x == item) {
                                    items.push(String::from(item));
                                }
                            }
                        }
                        values = vec![items.join(",")];
                    }
                    let resp = build_msg(
                        "GET_RESP",
                        vec![
                            ("key", Value::S(key)),
                            ("values", Value::A(values)),
                            ("context", Value::S(vv_encode(&merged))),
                        ],
                    );
                    return Actions {
                        sends: vec![],
                        timers: vec![],
                        cancels: vec![],
                        locals: vec![resp],
                    };
                }
                Actions::new()
            },
            _ => Actions::new(),
        }
    }

    fn on_timer(&mut self, _name: String, _time: u64) -> Actions {
        Actions::new()
    }

    fn on_local(&mut self, msg: Message, _time: u64) -> Actions {
        let key = field_s(&msg, "key").unwrap_or_default();
        match msg.tip.as_str() {
            "PUT" => {
                let value = field_s(&msg, "value").unwrap_or_default();
                let quorum = field_n(&msg, "quorum").unwrap_or(1);
                let ctx = field_s(&msg, "context").unwrap_or_default();
                let mut vv = vv_decode(&ctx);
                let own = vv.get(&self.id).copied().unwrap_or(0);
                vv.insert(self.id.clone(), own + 1);
                self.pending.insert(
                    key.clone(),
                    PendingOp {
                        is_get: false,
                        quorum,
                        acks: 0,
                        gathered: Vec::new(),
                        value: value.clone(),
                        vv: vv.clone(),
                    },
                );
                let sends = self
                    .replicas(&key)
                    .into_iter()
                    .map(|r| {
                        (
                            r,
                            build_msg(
                                "RPUT",
                                vec![
                                    ("key", Value::S(key.clone())),
                                    ("value", Value::S(value.clone())),
                                    ("vv", Value::S(vv_encode(&vv))),
                                ],
                            ),
                        )
                    })
                    .collect();
                Actions { sends, timers: vec![], cancels: vec![], locals: vec![] }
            },
            "GET" => {
                let quorum = field_n(&msg, "quorum").unwrap_or(1);
                self.pending.insert(
                    key.clone(),
                    PendingOp {
                        is_get: true,
                        quorum,
                        acks: 0,
                        gathered: Vec::new(),
                        value: String::new(),
                        vv: Vv::new(),
                    },
                );
                let sends = self
                    .replicas(&key)
                    .into_iter()
                    .map(|r| (r, build_msg("RGET", vec![("key", Value::S(key.clone()))])))
                    .collect();
                Actions { sends, timers: vec![], cancels: vec![], locals: vec![] }
            },
            _ => Actions::new(),
        }
    }

    fn memory_size(&self) -> u64 {
        self.store.len() as u64
    }
}

fn build(seed: u64, n: u64) -> (System<QuorumNode>, Vec<String>) {
    let mut sys: System<QuorumNode> = System::with_seed(seed);
    sys.set_delays(10_000, 100_000);
    let ids: Vec<String> = (0..n).map(|i| i.to_string()).collect();
    for id in &ids {
        sys.add_node(
            id,
            QuorumNode {
                id: id.clone(),
                n,
                store: HashMap::new(),
                pending: HashMap::new(),
            },
        );
    }
    (sys, ids)
}

fn put_msg(key: &str, value: &str, quorum: u64) -> Message {
    build_msg(
        "PUT",
        vec![
            ("key", Value::S(String::from(key))),
            ("value", Value::S(String::from(value))),
            ("context", Value::Null),
            ("quorum", Value::N(quorum)),
        ],
    )
}

#[test]
fn basic_put_then_read_from_anywhere() {
    let (mut sys, ids) = build(123, 6);
    let mut rng = SimRng::with_seed(123);
    let key = rand_string(&mut rng, 8).to_uppercase();
    let value = rand_string(&mut rng, 8);
    let empty: Vec<String> = Vec::new();
    assert!(check_get(&mut sys, &ids[0], &key, 2, Some(&empty), 2000).is_ok());
    let (vals, _) = check_put(&mut sys, &ids[0], &key, &value, None, 2, 2000).unwrap();
    assert_eq!(vals, vec![value.clone()]);
    for id in &ids {
        let expected = vec![value.clone()];
        assert!(check_get(&mut sys, id, &key, 2, Some(&expected), 2000).is_ok());
    }
}

#[test]
fn concurrent_writes_surface_and_reconcile() {
    let (mut sys, _ids) = build(123, 6);
    let mut rng = SimRng::with_seed(123);
    let key = rand_string(&mut rng, 8).to_uppercase();
    let non_replicas = key_non_replicas(&key, 6);
    let node1 = non_replicas[0].clone();
    let node2 = non_replicas[1].clone();
    let node3 = non_replicas[2].clone();
    let v1 = rand_string(&mut rng, 8);
    let v2 = rand_string(&mut rng, 8);

    // two concurrent puts without context from distinct non-replicas
    sys.send_local(put_msg(&key, &v1, 2), &node1);
    sys.send_local(put_msg(&key, &v2, 2), &node2);
    assert!(sys.step_until_no_events());
    for node in [&node1, &node2] {
        let acked = sys
            .get_local_events(node)
            .iter()
            .any(|e| e.kind == LocalKind::Output && e.msg.tip == "PUT_RESP");
        assert!(acked, "missing PUT_RESP on {}", node);
    }

    // a quorum read surfaces both values for reconciliation
    let both = vec![v1.clone(), v2.clone()];
    let (vals, ctx) = check_get(&mut sys, &node3, &key, 2, Some(&both), 5000).unwrap();
    assert_eq!(vals.len(), 2);
    let ctx = ctx.expect("a reconciliation context");

    // a put with that context collapses the siblings
    let v3 = format!("{}+{}", v1, v2);
    let (vals, _) = check_put(&mut sys, &node3, &key, &v3, Some(&ctx), 2, 5000).unwrap();
    assert_eq!(vals, vec![v3.clone()]);
    sys.steps(500);
    let reconciled = vec![v3.clone()];
    assert!(check_get(&mut sys, &node1, &key, 2, Some(&reconciled), 5000).is_ok());
    assert!(check_get(&mut sys, &node2, &key, 3, Some(&reconciled), 5000).is_ok());
}

#[test]
fn replica_placement_follows_the_digest() {
    for key in ["ALPHA", "QUORUMKEY", "Z9"] {
        for n in [3u64, 6, 10] {
            let digest = md5::compute(key.as_bytes());
            let h = u128::from_le_bytes(digest.0);
            let first = (h % n as u128) as u64;
            let reps = key_replicas(key, n);
            assert_eq!(reps.len(), 3);
            assert_eq!(reps[0], first.to_string());
            assert_eq!(reps[1], ((first + 1) % n).to_string());
            assert_eq!(reps[2], ((first + 2) % n).to_string());
        }
    }
}

#[test]
fn non_replicas_are_rotated_and_disjoint() {
    let key = "SOMEKEY1";
    let n = 6u64;
    let reps = key_replicas(key, n);
    let non = key_non_replicas(key, n);
    assert_eq!(non.len(), 3);
    for id in &non {
        assert!(!reps.contains(id));
    }
    // rotation: ids after the last replica come before those preceding
    // the first replica
    let digest = md5::compute(key.as_bytes());
    let first = (u128::from_le_bytes(digest.0) % n as u128) as u64;
    let expected: Vec<String> = (3..n).map(|k| ((first + k) % n).to_string()).collect();
    assert_eq!(non, expected);
}

#[test]
fn cart_payloads_split_and_compare_as_sets() {
    let items = split_commas("milk,eggs,ham");
    assert_eq!(items, vec!["milk", "eggs", "ham"]);
    assert_eq!(split_commas(""), vec![""]);
    assert_eq!(split_commas("a,,b"), vec!["a", "", "b"]);

    let values = vec![String::from("milk,eggs,ham")];
    let expected = vec![String::from("ham"), String::from("milk"), String::from("eggs")];
    assert!(check_cart_values(&values, &expected).is_ok());
    let short = vec![String::from("ham"), String::from("milk")];
    assert!(check_cart_values(&values, &short).is_err());
    let two = vec![String::from("a"), String::from("b")];
    assert!(check_cart_values(&two, &expected).is_err());
}

#[test]
fn concurrent_cart_updates_merge_by_union() {
    let (mut sys, _ids) = build(123, 6);
    let mut rng = SimRng::with_seed(123);
    let key = format!("cart-{}", rand_string(&mut rng, 8)).to_uppercase();
    let non_replicas = key_non_replicas(&key, 6);
    let node1 = non_replicas[0].clone();
    let node2 = non_replicas[1].clone();

    // two shoppers fill the same cart concurrently, without context
    sys.send_local(put_msg(&key, "milk,flour", 2), &node1);
    sys.send_local(put_msg(&key, "eggs,ham", 2), &node2);
    assert!(sys.step_until_no_events());

    // a quorum read merges the concurrent carts into one item set
    let (values, ctx) = check_get(&mut sys, &node1, &key, 2, None, 5000).unwrap();
    let expected: Vec<String> = ["milk", "flour", "eggs", "ham"]
        .iter()
        .map(|s| String::from(*s))
        .collect();
    assert!(check_cart_values(&values, &expected).is_ok());

    // writing the merged cart back with the read context collapses it
    let merged = values[0].clone();
    let ctx = ctx.expect("a cart context");
    assert!(check_put(&mut sys, &node2, &key, &merged, Some(&ctx), 2, 5000).is_ok());
    sys.steps(500);
    let reconciled = vec![merged];
    assert!(check_get(&mut sys, &node2, &key, 3, Some(&reconciled), 5000).is_ok());
}
