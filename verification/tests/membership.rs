//! Membership scenarios over a heartbeat-gossip node: joining through a
//! seed, stabilization, and convergence of both sides of a network
//! partition.

use std::collections::HashMap;

use dsim::membership::step_until_stabilized;
use dsim::msg::{Message, Payload, Value};
use dsim::node::{Actions, Node};
use dsim::rng::SimRng;
use dsim::system::{System, SECOND};

const GOSSIP_EVERY: u64 = SECOND;
const TIMEOUT: u64 = 10 * SECOND;
const GRACE: u64 = 2 * SECOND;

fn no_payload(tip: &str) -> Message {
    Message { tip: String::from(tip), payload: Payload { fields: vec![] } }
}

fn members_msg(tip: &str, ids: Vec<String>) -> Message {
    Message {
        tip: String::from(tip),
        payload: Payload { fields: vec![(String::from("members"), Value::A(ids))] },
    }
}

fn get_members_field(m: &Message) -> Vec<String> {
    match m.payload.get("members") {
        Some(Value::A(v)) => v.clone(),
        _ => Vec::new(),
    }
}

/// Gossips its member list to everyone it knows every second; members
/// not heard from in time are dropped. Members learned indirectly start
/// almost expired, so only direct heartbeats keep anyone alive.
struct GroupMember {
    id: String,
    alive: bool,
    last_heard: HashMap<String, u64>,
}

impl GroupMember {
    fn member_ids(&self) -> Vec<String> {
        let mut ids: Vec<String> = self.last_heard.keys().cloned().collect();
        ids.sort();
        ids
    }

    fn gossip_round(&mut self, time: u64) -> Actions {
        let me = self.id.clone();
        self.last_heard.insert(me.clone(), time);
        let expired: Vec<String> = self
            .last_heard
            .iter()
            .filter(|(id, seen)| **id != me && time.saturating_sub(**seen) > TIMEOUT)
            .map(|(id, _)| id.clone())
            .collect();
        for id in &expired {
            self.last_heard.remove(id);
        }
        // advertise only members heard from directly and recently, so that
        // an expired member cannot be resurrected by second-hand gossip
        let mut list: Vec<String> = self
            .last_heard
            .iter()
            .filter(|(_, seen)| time.saturating_sub(**seen) <= TIMEOUT - GRACE)
            .map(|(id, _)| id.clone())
            .collect();
        list.sort();
        let sends = self
            .last_heard
            .keys()
            .filter(|id| **id != me)
            .map(|id| (id.clone(), members_msg("GOSSIP", list.clone())))
            .collect();
        Actions {
            sends,
            timers: vec![(String::from("gossip"), GOSSIP_EVERY)],
            cancels: vec![],
            locals: vec![],
        }
    }
}

impl Node for GroupMember {
    fn on_message(&mut self, src: String, msg: Message, time: u64) -> Actions {
        if !self.alive {
            return Actions::new();
        }
        match msg.tip.as_str() {
            "HELLO" => {
                self.last_heard.insert(src.clone(), time);
                Actions {
                    sends: vec![(src, members_msg("GOSSIP", self.member_ids()))],
                    timers: vec![],
                    cancels: vec![],
                    locals: vec![],
                }
            },
            "GOSSIP" => {
                self.last_heard.insert(src, time);
                for id in get_members_field(&msg) {
                    if id != self.id && !self.last_heard.contains_key(&id) {
                        // nearly expired: a direct heartbeat must follow
                        self.last_heard
                            .insert(id, time.saturating_sub(TIMEOUT - GRACE));
                    }
                }
                Actions::new()
            },
            "BYE" => {
                self.last_heard.remove(&src);
                Actions::new()
            },
            _ => Actions::new(),
        }
    }

    fn on_timer(&mut self, name: String, time: u64) -> Actions {
        if !self.alive || name != "gossip" {
            return Actions::new();
        }
        self.gossip_round(time)
    }

    fn on_local(&mut self, msg: Message, time: u64) -> Actions {
        match msg.tip.as_str() {
            "JOIN" => {
                let seed = match msg.payload.get("seed") {
                    Some(Value::S(s)) => s.clone(),
                    _ => self.id.clone(),
                };
                self.alive = true;
                self.last_heard.clear();
                self.last_heard.insert(self.id.clone(), time);
                let sends = if seed != self.id {
                    vec![(seed, no_payload("HELLO"))]
                } else {
                    vec![]
                };
                Actions {
                    sends,
                    timers: vec![(String::from("gossip"), GOSSIP_EVERY)],
                    cancels: vec![],
                    locals: vec![],
                }
            },
            "LEAVE" => {
                self.alive = false;
                let me = self.id.clone();
                let sends = self
                    .last_heard
                    .keys()
                    .filter(|id| **id != me)
                    .map(|id| (id.clone(), no_payload("BYE")))
                    .collect();
                self.last_heard.clear();
                Actions { sends, timers: vec![], cancels: vec![String::from("gossip")], locals: vec![] }
            },
            "GET_MEMBERS" => Actions {
                sends: vec![],
                timers: vec![],
                cancels: vec![],
                locals: vec![members_msg("MEMBERS", self.member_ids())],
            },
            _ => Actions::new(),
        }
    }

    fn memory_size(&self) -> u64 {
        self.last_heard.len() as u64
    }
}

fn join_msg(seed: &str) -> Message {
    Message {
        tip: String::from("JOIN"),
        payload: Payload { fields: vec![(String::from("seed"), Value::S(String::from(seed)))] },
    }
}

fn build(seed: u64, n: usize) -> (System<GroupMember>, Vec<String>) {
    let mut sys: System<GroupMember> = System::with_seed(seed);
    sys.set_delays(10_000, 100_000);
    let ids: Vec<String> = (0..n).map(|i| i.to_string()).collect();
    for id in &ids {
        sys.add_node(
            id,
            GroupMember { id: id.clone(), alive: false, last_heard: HashMap::new() },
        );
        let skew = sys.gen_range(0, 10 * SECOND);
        sys.set_clock_skew(id, skew);
    }
    (sys, ids)
}

const STAB_TIME: u64 = 300 * SECOND;
const ROUND: u64 = 5 * SECOND;
const REPLY_STEPS: u64 = 100_000;

#[test]
fn group_stabilizes_after_joins() {
    let (mut sys, ids) = build(123, 10);
    for id in &ids {
        sys.send_local(join_msg("0"), id);
    }
    let r = step_until_stabilized(&mut sys, &ids, STAB_TIME, ROUND, REPLY_STEPS);
    assert_eq!(r, Ok(()));
}

#[test]
fn partition_converges_to_both_sides() {
    let (mut sys, ids) = build(123, 10);
    for id in &ids {
        sys.send_local(join_msg("0"), id);
    }
    assert_eq!(
        step_until_stabilized(&mut sys, &ids, STAB_TIME, ROUND, REPLY_STEPS),
        Ok(())
    );

    // a random 60/40 split, drawn from a separate seeded stream
    let mut rng = SimRng::with_seed(123);
    let mut side_a: Vec<String> = Vec::new();
    let mut side_b: Vec<String> = Vec::new();
    for id in &ids {
        if rng.next_below(10) < 6 {
            side_a.push(id.clone());
        } else {
            side_b.push(id.clone());
        }
    }
    if side_a.is_empty() {
        side_a.push(side_b.pop().unwrap());
    }
    if side_b.is_empty() {
        side_b.push(side_a.pop().unwrap());
    }
    sys.make_partition(&side_a, &side_b);

    // within the time budget each side stabilizes to exactly itself
    assert_eq!(
        step_until_stabilized(&mut sys, &side_a, STAB_TIME, ROUND, REPLY_STEPS),
        Ok(())
    );
    assert_eq!(
        step_until_stabilized(&mut sys, &side_b, STAB_TIME, ROUND, REPLY_STEPS),
        Ok(())
    );
}

#[test]
fn leaving_node_is_dropped() {
    let (mut sys, mut ids) = build(7, 5);
    for id in &ids {
        sys.send_local(join_msg("0"), id);
    }
    assert_eq!(
        step_until_stabilized(&mut sys, &ids, STAB_TIME, ROUND, REPLY_STEPS),
        Ok(())
    );
    let left = ids.pop().unwrap();
    sys.send_local(no_payload("LEAVE"), &left);
    assert_eq!(
        step_until_stabilized(&mut sys, &ids, STAB_TIME, ROUND, REPLY_STEPS),
        Ok(())
    );
}

#[test]
fn crashed_node_is_dropped() {
    let (mut sys, mut ids) = build(9, 5);
    for id in &ids {
        sys.send_local(join_msg("0"), id);
    }
    assert_eq!(
        step_until_stabilized(&mut sys, &ids, STAB_TIME, ROUND, REPLY_STEPS),
        Ok(())
    );
    let crashed = ids.remove(2);
    sys.crash_node(&crashed);
    assert_eq!(
        step_until_stabilized(&mut sys, &ids, STAB_TIME, ROUND, REPLY_STEPS),
        Ok(())
    );
}

#[test]
fn gossip_load_is_balanced() {
    let (mut sys, ids) = build(123, 10);
    for id in &ids {
        sys.send_local(join_msg("0"), id);
    }
    assert_eq!(
        step_until_stabilized(&mut sys, &ids, STAB_TIME, ROUND, REPLY_STEPS),
        Ok(())
    );
    let mut base: HashMap<String, u64> = HashMap::new();
    for id in &ids {
        base.insert(
            id.clone(),
            sys.get_sent_message_count(id) + sys.get_received_message_count(id),
        );
    }
    sys.step_for_duration(10 * SECOND);
    let mut loads: Vec<u64> = Vec::new();
    for id in &ids {
        let now = sys.get_sent_message_count(id) + sys.get_received_message_count(id);
        loads.push(now - base[id]);
    }
    let max = *loads.iter().max().unwrap() as f64;
    let min = *loads.iter().min().unwrap() as f64;
    assert!(min > 0.0);
    assert!(max / min <= 5.0, "max/min node load {} / {}", max, min);
}

#[test]
fn disconnected_node_is_dropped_from_the_group() {
    let (mut sys, mut ids) = build(11, 5);
    for id in &ids {
        sys.send_local(join_msg("0"), id);
    }
    assert_eq!(
        step_until_stabilized(&mut sys, &ids, STAB_TIME, ROUND, REPLY_STEPS),
        Ok(())
    );
    let offline = ids.remove(1);
    sys.disconnect_node(&offline);
    assert_eq!(
        step_until_stabilized(&mut sys, &ids, STAB_TIME, ROUND, REPLY_STEPS),
        Ok(())
    );
}
