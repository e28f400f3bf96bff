//! Engine-level behavior: determinism, the network fault model, timer
//! replacement, and the small verified utilities.

use dsim::msg::{Message, Payload, Value, msg_eq, wire_size};
use dsim::node::{Actions, LocalEvent, LocalKind, Node};
use dsim::rng::SimRng;
use dsim::strutil::u64_to_dec;
use dsim::system::{System, SECOND};

fn text_msg(tip: &str, text: &str) -> Message {
    Message {
        tip: String::from(tip),
        payload: Payload { fields: vec![(String::from("text"), Value::S(String::from(text)))] },
    }
}

fn text_of(m: &Message) -> Option<String> {
    match m.payload.get("text") {
        Some(Value::S(s)) => Some(s.clone()),
        _ => None,
    }
}

/// Forwards every local input to a fixed peer; emits every received
/// message as a local output.
struct Relay {
    peer: String,
}

impl Node for Relay {
    fn on_message(&mut self, _src: String, msg: Message, _time: u64) -> Actions {
        Actions { sends: vec![], timers: vec![], cancels: vec![], locals: vec![msg] }
    }

    fn on_timer(&mut self, _name: String, _time: u64) -> Actions {
        Actions::new()
    }

    fn on_local(&mut self, msg: Message, _time: u64) -> Actions {
        Actions {
            sends: vec![(self.peer.clone(), msg)],
            timers: vec![],
            cancels: vec![],
            locals: vec![],
        }
    }

    fn memory_size(&self) -> u64 {
        1
    }
}

/// Installs a timer twice under one name, then reports each firing.
struct TwoTimers;

impl Node for TwoTimers {
    fn on_message(&mut self, _src: String, _msg: Message, _time: u64) -> Actions {
        Actions::new()
    }

    fn on_timer(&mut self, name: String, time: u64) -> Actions {
        Actions {
            sends: vec![],
            timers: vec![],
            cancels: vec![],
            locals: vec![text_msg("FIRED", &format!("{}@{}", name, time))],
        }
    }

    fn on_local(&mut self, _msg: Message, _time: u64) -> Actions {
        Actions {
            sends: vec![],
            timers: vec![
                (String::from("t"), 5 * SECOND),
                (String::from("t"), 2 * SECOND),
            ],
            cancels: vec![],
            locals: vec![],
        }
    }

    fn memory_size(&self) -> u64 {
        1
    }
}

fn run_relay_once(seed: u64) -> (Vec<String>, u64, u64, u64) {
    let mut sys: System<Relay> = System::with_seed(seed);
    sys.add_node("a", Relay { peer: String::from("b") });
    sys.add_node("b", Relay { peer: String::from("a") });
    for i in 0..20u64 {
        let m = text_msg("MESSAGE", &format!("m{}", i));
        sys.send_local(m, "a");
        sys.steps(3);
    }
    sys.step_until_no_events();
    let mut delivered = Vec::new();
    for e in sys.get_local_events("b") {
        if e.kind == LocalKind::Output {
            if let Some(t) = text_of(&e.msg) {
                delivered.push(t);
            }
        }
    }
    (
        delivered,
        sys.get_network_message_count(),
        sys.get_network_traffic(),
        sys.time(),
    )
}

#[test]
fn engine_is_deterministic() {
    let a = run_relay_once(42);
    let b = run_relay_once(42);
    assert_eq!(a.0, b.0);
    assert_eq!(a.1, b.1);
    assert_eq!(a.2, b.2);
    assert_eq!(a.3, b.3);
    let c = run_relay_once(43);
    // a different seed gives a different trace somewhere
    assert!(a.0 != c.0 || a.1 != c.1 || a.3 != c.3);
}

#[test]
fn reliable_network_delivers_everything_once() {
    let (delivered, msgs, traffic, _) = run_relay_once(7);
    assert_eq!(delivered.len(), 20);
    assert_eq!(msgs, 20);
    assert!(traffic > 0);
    for i in 0..20u64 {
        assert!(delivered.contains(&format!("m{}", i)));
    }
}

#[test]
fn drop_and_duplicate_rates_match_expectation() {
    let mut sys: System<Relay> = System::with_seed(123);
    sys.add_node("a", Relay { peer: String::from("b") });
    sys.add_node("b", Relay { peer: String::from("a") });
    sys.set_drop_rate_ppm(300_000);
    sys.set_dupl_rate_ppm(300_000);
    sys.set_delay(1000);
    let total = 10_000u64;
    for i in 0..total {
        sys.send_local(text_msg("M", &format!("x{}", i)), "a");
        if i % 50 == 0 {
            sys.steps(100);
        }
    }
    sys.step_until_no_events();
    let delivered = sys
        .get_local_events("b")
        .iter()
        .filter(|e| e.kind == LocalKind::Output)
        .count() as f64;
    let expected = total as f64 * (1.0 - 0.3) * (1.0 + 0.3);
    let deviation = (delivered - expected).abs() / expected;
    assert!(
        deviation < 0.05,
        "delivered {} expected {} deviation {}",
        delivered,
        expected,
        deviation
    );
}

#[test]
fn partition_isolates_and_reset_restores() {
    let mut sys: System<Relay> = System::with_seed(5);
    sys.add_node("a", Relay { peer: String::from("b") });
    sys.add_node("b", Relay { peer: String::from("a") });
    sys.make_partition(&vec![String::from("a")], &vec![String::from("b")]);
    sys.send_local(text_msg("M", "blocked"), "a");
    sys.step_until_no_events();
    let outputs = |sys: &System<Relay>| {
        sys.get_local_events("b")
            .iter()
            .filter(|e| e.kind == LocalKind::Output)
            .count()
    };
    assert_eq!(outputs(&sys), 0);
    sys.reset_network();
    sys.send_local(text_msg("M", "flows"), "a");
    sys.step_until_no_events();
    assert_eq!(outputs(&sys), 1);
}

#[test]
fn asymmetric_blocking_is_one_way() {
    let mut sys: System<Relay> = System::with_seed(6);
    sys.add_node("a", Relay { peer: String::from("b") });
    sys.add_node("b", Relay { peer: String::from("a") });
    sys.drop_outgoing("a");
    sys.send_local(text_msg("M", "from-a"), "a");
    sys.send_local(text_msg("M", "from-b"), "b");
    sys.step_until_no_events();
    let outs = |sys: &System<Relay>, id: &str| {
        sys.get_local_events(id)
            .iter()
            .filter(|e| e.kind == LocalKind::Output)
            .count()
    };
    // messages out of a never dispatch; messages into a still do
    assert_eq!(outs(&sys, "b"), 0);
    assert_eq!(outs(&sys, "a"), 1);
    sys.pass_outgoing("a");
    sys.send_local(text_msg("M", "again"), "a");
    sys.step_until_no_events();
    assert_eq!(outs(&sys, "b"), 1);
}

#[test]
fn crashed_node_absorbs_everything() {
    let mut sys: System<Relay> = System::with_seed(8);
    sys.add_node("a", Relay { peer: String::from("b") });
    sys.add_node("b", Relay { peer: String::from("a") });
    sys.crash_node("b");
    assert!(sys.node_is_crashed("b"));
    sys.send_local(text_msg("M", "lost"), "a");
    sys.step_until_no_events();
    assert_eq!(sys.get_local_events("b").len(), 0);
}

#[test]
fn replaced_timer_fires_once_at_second_delay() {
    let mut sys: System<TwoTimers> = System::with_seed(9);
    sys.add_node("t", TwoTimers);
    sys.send_local(text_msg("GO", ""), "t");
    sys.step_until_no_events();
    let events: Vec<LocalEvent> = sys.get_local_events("t");
    let fired: Vec<&LocalEvent> =
        events.iter().filter(|e| e.kind == LocalKind::Output).collect();
    assert_eq!(fired.len(), 1);
    assert_eq!(text_of(&fired[0].msg).unwrap(), "t@2000000");
    assert_eq!(sys.time(), 2 * SECOND);
}

#[test]
fn clock_skew_shifts_local_time() {
    let mut sys: System<TwoTimers> = System::with_seed(10);
    sys.add_node("t", TwoTimers);
    sys.set_clock_skew("t", 500_000);
    sys.send_local(text_msg("GO", ""), "t");
    sys.step_until_no_events();
    let events = sys.get_local_events("t");
    let fired: Vec<&LocalEvent> =
        events.iter().filter(|e| e.kind == LocalKind::Output).collect();
    // the timer fires at engine time 2 s; the node observes 2.5 s
    assert_eq!(text_of(&fired[0].msg).unwrap(), "t@2500000");
}

#[test]
fn step_for_duration_advances_exactly() {
    let mut sys: System<Relay> = System::with_seed(11);
    sys.add_node("a", Relay { peer: String::from("b") });
    sys.step_for_duration(7 * SECOND);
    assert_eq!(sys.time(), 7 * SECOND);
}

#[test]
fn message_identity_is_kind_and_payload() {
    let a = text_msg("M", "x");
    let b = text_msg("M", "x");
    let c = text_msg("M", "y");
    let d = text_msg("N", "x");
    assert!(msg_eq(&a, &b));
    assert!(!msg_eq(&a, &c));
    assert!(!msg_eq(&a, &d));
}

#[test]
fn wire_size_is_canonical_rendering_length() {
    // {"text":"hi"} is 13 characters
    assert_eq!(wire_size(&text_msg("M", "hi")), 13);
    // {} for an empty payload
    let empty = Message { tip: String::from("M"), payload: Payload { fields: vec![] } };
    assert_eq!(wire_size(&empty), 2);
    // numbers render in decimal: {"count":120}
    let counted = Message {
        tip: String::from("M"),
        payload: Payload { fields: vec![(String::from("count"), Value::N(120))] },
    };
    assert_eq!(wire_size(&counted), 13);
    // arrays and escapes: {"ks":["a","b"],"q":"\""}
    let fancy = Message {
        tip: String::from("M"),
        payload: Payload {
            fields: vec![
                (
                    String::from("ks"),
                    Value::A(vec![String::from("a"), String::from("b")]),
                ),
                (String::from("q"), Value::S(String::from("\""))),
            ],
        },
    };
    assert_eq!(wire_size(&fancy), 25);
}

#[test]
fn decimal_rendering_matches() {
    assert_eq!(u64_to_dec(0), "0");
    assert_eq!(u64_to_dec(7), "7");
    assert_eq!(u64_to_dec(120), "120");
    assert_eq!(u64_to_dec(18_446_744_073_709_551_615), "18446744073709551615");
}

#[test]
fn seeded_stream_is_reproducible() {
    let mut a = SimRng::with_seed(99);
    let mut b = SimRng::with_seed(99);
    for _ in 0..100 {
        assert_eq!(a.next_u64(), b.next_u64());
    }
    let mut c = SimRng::with_seed(100);
    let mut differs = false;
    let mut a2 = SimRng::with_seed(99);
    for _ in 0..10 {
        if a2.next_u64() != c.next_u64() {
            differs = true;
        }
    }
    assert!(differs);
    let mut d = SimRng::with_seed(1);
    for _ in 0..1000 {
        let v = d.gen_range(10, 20);
        assert!((10..20).contains(&v));
    }
}

#[test]
fn recovered_node_keeps_its_log() {
    let mut sys: System<Relay> = System::with_seed(12);
    sys.add_node("a", Relay { peer: String::from("b") });
    sys.add_node("b", Relay { peer: String::from("a") });
    sys.send_local(text_msg("M", "one"), "a");
    sys.step_until_no_events();
    sys.crash_node("b");
    let before = sys.get_local_events("b").len();
    sys.add_node("b", Relay { peer: String::from("a") });
    assert!(!sys.node_is_crashed("b"));
    assert_eq!(sys.get_local_events("b").len(), before);
    sys.send_local(text_msg("M", "two"), "a");
    sys.step_until_no_events();
    assert_eq!(sys.get_local_events("b").len(), before + 1);
}

#[test]
fn missing_or_silent_nodes_report_errors() {
    let mut sys: System<Relay> = System::with_seed(13);
    sys.add_node("a", Relay { peer: String::from("b") });
    // an unknown destination fails the request without panicking
    assert!(sys
        .request_reply("nobody", text_msg("M", "x"), 100)
        .is_err());
    // a node that never answers runs the step budget out
    assert!(sys.step_until_local_message_max_steps("a", 50).is_err());
    // observability of unknown ids is empty, not fatal
    assert_eq!(sys.get_local_events("nobody").len(), 0);
    assert_eq!(sys.get_sent_message_count("nobody"), 0);
    assert_eq!(sys.get_max_size("nobody"), 0);
    assert!(!sys.node_is_crashed("nobody"));
}
