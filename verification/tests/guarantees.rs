//! The delivery-guarantee scenarios and predicate checks: the fixed
//! five-message run over a reliable network, the same run under
//! duplication with ordering, and unit coverage of the predicates and the
//! budget table.

use std::collections::HashMap;

use dsim::guarantees::{
    check_at_least_once, check_at_most_once, check_exactly_once, check_guarantees, check_ordered,
    check_overhead, local_outputs, overhead_limits, send_messages, Guarantee, GuaranteeViolation,
    OverheadViolation,
};
use dsim::msg::{Message, Payload, Value};
use dsim::node::{Actions, Node};
use dsim::system::System;

fn text_msg(tip: &str, text: &str) -> Message {
    Message {
        tip: String::from(tip),
        payload: Payload { fields: vec![(String::from("text"), Value::S(String::from(text)))] },
    }
}

fn get_str(m: &Message, name: &str) -> String {
    match m.payload.get(name) {
        Some(Value::S(s)) => s.clone(),
        _ => panic!("missing field"),
    }
}

fn get_num(m: &Message, name: &str) -> u64 {
    match m.payload.get(name) {
        Some(Value::N(n)) => *n,
        _ => panic!("missing field"),
    }
}

/// A sender/receiver pair giving exactly-once-ordered delivery as long as
/// the network does not drop: the sender numbers messages, the receiver
/// buffers, deduplicates and releases them in sequence order.
enum GNode {
    Sender { peer: String, next: u64 },
    Receiver { pending: HashMap<u64, String>, next: u64 },
}

impl Node for GNode {
    fn on_message(&mut self, _src: String, msg: Message, _time: u64) -> Actions {
        match self {
            GNode::Sender { .. } => Actions::new(),
            GNode::Receiver { pending, next } => {
                let seq = get_num(&msg, "seq");
                let text = get_str(&msg, "text");
                if seq >= *next {
                    pending.entry(seq).or_insert(text);
                }
                let mut locals = Vec::new();
                while let Some(t) = pending.remove(next) {
                    locals.push(text_msg("MESSAGE", &t));
                    *next += 1;
                }
                Actions { sends: vec![], timers: vec![], cancels: vec![], locals }
            },
        }
    }

    fn on_timer(&mut self, _name: String, _time: u64) -> Actions {
        Actions::new()
    }

    fn on_local(&mut self, msg: Message, _time: u64) -> Actions {
        match self {
            GNode::Sender { peer, next } => {
                let text = get_str(&msg, "text");
                let data = Message {
                    tip: String::from("DATA"),
                    payload: Payload {
                        fields: vec![
                            (String::from("text"), Value::S(text)),
                            (String::from("seq"), Value::N(*next)),
                        ],
                    },
                };
                *next += 1;
                Actions {
                    sends: vec![(peer.clone(), data)],
                    timers: vec![],
                    cancels: vec![],
                    locals: vec![],
                }
            },
            GNode::Receiver { .. } => Actions::new(),
        }
    }

    fn memory_size(&self) -> u64 {
        match self {
            GNode::Sender { .. } => 16,
            GNode::Receiver { pending, .. } => 16 + 8 * pending.len() as u64,
        }
    }
}

fn build_pair(seed: u64) -> System<GNode> {
    let mut sys: System<GNode> = System::with_seed(seed);
    sys.add_node(
        "sender",
        GNode::Sender { peer: String::from("receiver"), next: 0 },
    );
    sys.add_node(
        "receiver",
        GNode::Receiver { pending: HashMap::new(), next: 0 },
    );
    sys
}

#[test]
fn five_messages_normal_at_most_once() {
    let mut sys = build_pair(123);
    let sent = send_messages(&mut sys, 5);
    sys.step_until_no_events();
    let delivered = local_outputs(&sys.get_local_events("receiver"));
    // delivered set equals sent set, each item delivered at most once
    assert!(check_exactly_once(&sent, &delivered));
    assert_eq!(
        check_guarantees(&sent, &delivered, true, true, false),
        Ok(())
    );
    assert_eq!(delivered.len(), 5);
}

#[test]
fn five_messages_duplicated_exactly_once_ordered() {
    let mut sys = build_pair(123);
    sys.set_dupl_rate_ppm(300_000);
    let sent = send_messages(&mut sys, 5);
    sys.step_until_no_events();
    let delivered = local_outputs(&sys.get_local_events("receiver"));
    // delivered set equals sent, each exactly once, in input order
    assert_eq!(
        check_guarantees(&sent, &delivered, true, true, true),
        Ok(())
    );
    assert_eq!(delivered.len(), 5);
    assert!(check_ordered(&sent, &delivered));
}

#[test]
fn chaos_runs_stay_exactly_once_ordered() {
    // duplication and jitter together, several seeds
    for seed in [1u64, 2, 3, 4, 5] {
        let mut sys = build_pair(seed);
        sys.set_delays(1_000_000, 3_000_000);
        sys.set_dupl_rate_ppm(300_000);
        let sent = send_messages(&mut sys, 10);
        sys.step_until_no_events();
        let delivered = local_outputs(&sys.get_local_events("receiver"));
        assert_eq!(
            check_guarantees(&sent, &delivered, true, true, true),
            Ok(())
        );
    }
}

#[test]
fn dropped_messages_still_at_most_once() {
    let mut sys = build_pair(123);
    sys.set_drop_rate_ppm(300_000);
    let sent = send_messages(&mut sys, 5);
    sys.step_until_no_events();
    let delivered = local_outputs(&sys.get_local_events("receiver"));
    // the sender does not retransmit, so reliability is off the table,
    // but nothing is ever delivered twice
    assert_eq!(
        check_guarantees(&sent, &delivered, false, true, true),
        Ok(())
    );
}

#[test]
fn at_most_once_flags_duplicates() {
    let sent = vec![text_msg("M", "a"), text_msg("M", "b")];
    let delivered = vec![text_msg("M", "a"), text_msg("M", "a")];
    assert!(!check_at_most_once(&sent, &delivered));
    assert!(check_at_least_once(
        &vec![text_msg("M", "a")],
        &delivered
    ));
    assert_eq!(
        check_guarantees(&sent, &delivered, false, true, false),
        Err(GuaranteeViolation::DuplicateDelivery)
    );
}

#[test]
fn at_least_once_flags_losses() {
    let sent = vec![text_msg("M", "a"), text_msg("M", "b")];
    let delivered = vec![text_msg("M", "a")];
    assert!(!check_at_least_once(&sent, &delivered));
    assert!(check_at_most_once(&sent, &delivered));
    assert_eq!(
        check_guarantees(&sent, &delivered, true, false, false),
        Err(GuaranteeViolation::NotDelivered)
    );
}

#[test]
fn ordering_check_accepts_order_and_rejects_swaps() {
    let sent = vec![text_msg("M", "a"), text_msg("M", "b"), text_msg("M", "c")];
    let in_order = vec![text_msg("M", "a"), text_msg("M", "c")];
    let swapped = vec![text_msg("M", "b"), text_msg("M", "a")];
    assert!(check_ordered(&sent, &in_order));
    assert!(!check_ordered(&sent, &swapped));
    // a repeated delivery of the same item keeps the scan position
    let repeated = vec![text_msg("M", "b"), text_msg("M", "b"), text_msg("M", "c")];
    assert!(check_ordered(&sent, &repeated));
    assert_eq!(
        check_guarantees(&sent, &swapped, false, false, true),
        Err(GuaranteeViolation::OrderViolation)
    );
}

#[test]
fn foreign_payloads_and_kinds_are_flagged() {
    let sent = vec![text_msg("M", "a")];
    let wrong_kind = vec![text_msg("X", "a")];
    assert_eq!(
        check_guarantees(&sent, &wrong_kind, false, false, false),
        Err(GuaranteeViolation::WrongType)
    );
    let invented = vec![text_msg("M", "z")];
    assert_eq!(
        check_guarantees(&sent, &invented, false, false, false),
        Err(GuaranteeViolation::UnexpectedMessage)
    );
}

#[test]
fn overhead_table_rows_are_exact() {
    assert_eq!(
        overhead_limits(Guarantee::AtMostOnce, 100, false),
        (500, 1000, 100, 15000)
    );
    assert_eq!(
        overhead_limits(Guarantee::AtLeastOnce, 1000, true),
        (400000, 300, 5000, 300000)
    );
    assert_eq!(
        overhead_limits(Guarantee::ExactlyOnce, 1000, false),
        (10000, 1000, 2000, 150000)
    );
    assert_eq!(
        overhead_limits(Guarantee::ExactlyOnceOrdered, 100, true),
        (20000, 6000, 500, 30000)
    );
    assert_eq!(
        overhead_limits(Guarantee::ExactlyOnceOrdered, 7, true),
        (u64::MAX, u64::MAX, u64::MAX, u64::MAX)
    );
}

#[test]
fn overhead_check_reports_first_exceeded_budget() {
    assert_eq!(
        check_overhead(Guarantee::AtMostOnce, false, 100, 400, 900, 100, 14000),
        Ok(())
    );
    assert_eq!(
        check_overhead(Guarantee::AtMostOnce, false, 100, 501, 900, 100, 14000),
        Err(OverheadViolation::SenderMemory)
    );
    assert_eq!(
        check_overhead(Guarantee::AtMostOnce, false, 100, 500, 1001, 100, 14000),
        Err(OverheadViolation::ReceiverMemory)
    );
    assert_eq!(
        check_overhead(Guarantee::AtMostOnce, false, 100, 500, 1000, 101, 14000),
        Err(OverheadViolation::MessageCount)
    );
    assert_eq!(
        check_overhead(Guarantee::AtMostOnce, false, 100, 500, 1000, 100, 15001),
        Err(OverheadViolation::Traffic)
    );
}

#[test]
fn observed_overhead_fits_the_normal_budget() {
    let mut sys = build_pair(123);
    sys.set_max_size_freq("sender", 1);
    sys.set_max_size_freq("receiver", 1);
    let sent = send_messages(&mut sys, 100);
    sys.step_until_no_events();
    let delivered = local_outputs(&sys.get_local_events("receiver"));
    assert_eq!(
        check_guarantees(&sent, &delivered, true, true, true),
        Ok(())
    );
    assert_eq!(
        check_overhead(
            Guarantee::ExactlyOnceOrdered,
            false,
            100,
            sys.get_max_size("sender"),
            sys.get_max_size("receiver"),
            sys.get_network_message_count(),
            sys.get_network_traffic(),
        ),
        Ok(())
    );
}
