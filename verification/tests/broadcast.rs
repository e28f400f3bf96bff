//! Broadcast scenarios over an eagerly relaying node, and unit coverage
//! of the five broadcast predicates.

use std::collections::HashSet;

use dsim::broadcast::{check_broadcast, collect_observations, evaluate_broadcast, BroadcastReport,
    BroadcastViolation, NodeObs};
use dsim::msg::{Message, Payload, Value};
use dsim::node::{Actions, LocalKind, Node};
use dsim::system::System;

fn text_msg(tip: &str, text: &str) -> Message {
    Message {
        tip: String::from(tip),
        payload: Payload { fields: vec![(String::from("text"), Value::S(String::from(text)))] },
    }
}

fn get_text(m: &Message) -> String {
    match m.payload.get("text") {
        Some(Value::S(s)) => s.clone(),
        _ => panic!("missing text"),
    }
}

/// Eager reliable broadcast: deliver on first sight and relay to every
/// peer.
struct BcastNode {
    id: String,
    peers: Vec<String>,
    seen: HashSet<String>,
}

impl BcastNode {
    fn spread(&self, text: &str) -> Vec<(String, Message)> {
        self.peers
            .iter()
            .filter(|p| **p != self.id)
            .map(|p| (p.clone(), text_msg("BCAST", text)))
            .collect()
    }
}

impl Node for BcastNode {
    fn on_message(&mut self, _src: String, msg: Message, _time: u64) -> Actions {
        let text = get_text(&msg);
        if self.seen.contains(&text) {
            return Actions::new();
        }
        self.seen.insert(text.clone());
        Actions {
            sends: self.spread(&text),
            timers: vec![],
            cancels: vec![],
            locals: vec![text_msg("DELIVER", &text)],
        }
    }

    fn on_timer(&mut self, _name: String, _time: u64) -> Actions {
        Actions::new()
    }

    fn on_local(&mut self, msg: Message, _time: u64) -> Actions {
        let text = get_text(&msg);
        if self.seen.contains(&text) {
            return Actions::new();
        }
        self.seen.insert(text.clone());
        Actions {
            sends: self.spread(&text),
            timers: vec![],
            cancels: vec![],
            locals: vec![text_msg("DELIVER", &text)],
        }
    }

    fn memory_size(&self) -> u64 {
        self.seen.len() as u64
    }
}

fn build(seed: u64, n: usize) -> System<BcastNode> {
    let mut sys: System<BcastNode> = System::with_seed(seed);
    let ids: Vec<String> = (0..n).map(|i| i.to_string()).collect();
    for id in &ids {
        sys.add_node(
            id,
            BcastNode { id: id.clone(), peers: ids.clone(), seen: HashSet::new() },
        );
    }
    sys
}

#[test]
fn normal_broadcast_satisfies_all_properties() {
    let mut sys = build(123, 5);
    sys.send_local(text_msg("SEND", "0:Hello"), "0");
    sys.step_until_no_events();
    let obs = collect_observations(&sys);
    assert_eq!(check_broadcast(&obs), Ok(()));
    for o in &obs {
        assert_eq!(o.delivered, vec![String::from("0:Hello")]);
    }
}

#[test]
fn sender_crash_keeps_uniform_agreement() {
    let mut sys = build(123, 5);
    sys.send_local(text_msg("SEND", "0:Hello"), "0");
    // let one or two messages deliver, then crash the source
    sys.step();
    if sys.get_local_events("0").len() == 1 {
        sys.steps(2);
    } else {
        sys.step();
    }
    sys.crash_node("0");
    sys.step_until_no_events();
    let obs = collect_observations(&sys);
    // either nobody correct delivered, or every correct node did
    assert_eq!(check_broadcast(&obs), Ok(()));
}

#[test]
fn sender_crash_across_seeds() {
    for seed in [1u64, 7, 21, 99, 1234] {
        let mut sys = build(seed, 5);
        sys.send_local(text_msg("SEND", "0:Hello"), "0");
        sys.step();
        sys.crash_node("0");
        sys.step_until_no_events();
        let obs = collect_observations(&sys);
        assert_eq!(check_broadcast(&obs), Ok(()));
    }
}

fn obs(id: &str, crashed: bool, sent: &[&str], delivered: &[&str], history: &[&str]) -> NodeObs {
    NodeObs {
        id: String::from(id),
        crashed,
        sent: sent.iter().map(|s| String::from(*s)).collect(),
        delivered: delivered.iter().map(|s| String::from(*s)).collect(),
        history: history.iter().map(|s| String::from(*s)).collect(),
    }
}

#[test]
fn duplication_is_detected() {
    let o = vec![obs("0", false, &["a"], &["a", "a"], &["a", "a", "a"])];
    assert_eq!(check_broadcast(&o), Err(BroadcastViolation::Duplication));
}

#[test]
fn creation_is_detected() {
    let o = vec![
        obs("0", false, &["a"], &["a"], &["a", "a"]),
        obs("1", false, &[], &["a", "z"], &["a", "z"]),
    ];
    assert_eq!(check_broadcast(&o), Err(BroadcastViolation::Creation));
}

#[test]
fn validity_is_detected() {
    let o = vec![obs("0", false, &["a"], &[], &["a"])];
    assert_eq!(check_broadcast(&o), Err(BroadcastViolation::Validity));
}

#[test]
fn agreement_violation_is_detected() {
    let o = vec![
        obs("0", false, &["a"], &["a"], &["a", "a"]),
        obs("1", false, &[], &[], &[]),
    ];
    assert_eq!(check_broadcast(&o), Err(BroadcastViolation::Agreement));
}

#[test]
fn causal_violation_is_detected() {
    // node 0 delivered x before sending b, but node 1 delivered b first
    let o = vec![
        obs("0", false, &["b"], &["x", "b"], &["x", "b", "b"]),
        obs("1", false, &["x"], &["b", "x"], &["x", "b", "x"]),
    ];
    assert_eq!(check_broadcast(&o), Err(BroadcastViolation::CausalOrder));
}

#[test]
fn crashed_nodes_are_exempt_from_agreement() {
    let o = vec![
        obs("0", false, &["a"], &["a"], &["a", "a"]),
        obs("1", true, &[], &[], &[]),
    ];
    assert_eq!(check_broadcast(&o), Ok(()));
}

#[test]
fn delivery_counts_as_local_outputs() {
    let mut sys = build(5, 3);
    sys.send_local(text_msg("SEND", "hi"), "0");
    sys.step_until_no_events();
    for id in ["0", "1", "2"] {
        let outs = sys
            .get_local_events(id)
            .iter()
            .filter(|e| e.kind == LocalKind::Output)
            .count();
        assert_eq!(outs, 1);
    }
}

#[test]
fn report_lists_every_violated_property() {
    // one node duplicates an invented text and skips its own send
    let o = vec![
        obs("0", false, &["a"], &["z", "z"], &["a", "z", "z"]),
        obs("1", false, &[], &["z"], &["z"]),
    ];
    let r = evaluate_broadcast(&o);
    assert_eq!(
        r,
        BroadcastReport {
            no_duplication: false,
            no_creation: false,
            validity: false,
            uniform_agreement: true,
            causal_order: true,
        }
    );
    let clean = vec![obs("0", false, &["a"], &["a"], &["a", "a"])];
    let rc = evaluate_broadcast(&clean);
    assert!(
        rc.no_duplication && rc.no_creation && rc.validity && rc.uniform_agreement
            && rc.causal_order
    );
}
