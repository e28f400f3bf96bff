//! The delivery-guarantee harness: predicates over the sent messages and
//! the receiver's delivered sequence (at-most-once, at-least-once,
//! exactly-once, exactly-once-ordered), the overhead budget table, and the
//! scenario drivers that feed a sender node and collect what the receiver
//! emitted.

use vstd::prelude::*;
use crate::msg::{Message, MessageV, ValueV, Payload, msg_views, payload_eq};
use crate::node::{Node, LocalEvent, LocalEventV, LocalKind, log_views, outputs_of};
use crate::strutil::{str_eq, spec_dec};
use crate::system::{System, session_frame, lemma_session_frame_refl, lemma_session_frame_trans, lemma_run_frame_session};
use crate::textgen::{rand_string, rand_text, rng_step_n, lemma_rng_step_n_add};
use crate::rng::rng_output;

verus! {

/// Number of messages in `s` whose payload is `p`.
pub open spec fn count_payload(s: Seq<MessageV>, p: Seq<(Seq<char>, ValueV)>) -> int
    decreases s.len(),
{
    if s.len() == 0 {
        0
    } else {
        count_payload(s.drop_last(), p) + (if s.last().fields == p {
            1int
        } else {
            0int
        })
    }
}

/// At-most-once delivery: no payload is delivered more often than it was
/// sent.
pub open spec fn at_most_once(sent: Seq<MessageV>, delivered: Seq<MessageV>) -> bool {
    forall|i: int|
        0 <= i < delivered.len() ==> count_payload(delivered, (#[trigger] delivered[i]).fields)
            <= count_payload(sent, delivered[i].fields)
}

/// At-least-once delivery: every sent payload is delivered at least once.
pub open spec fn at_least_once(sent: Seq<MessageV>, delivered: Seq<MessageV>) -> bool {
    forall|i: int|
        0 <= i < sent.len() ==> count_payload(delivered, (#[trigger] sent[i]).fields) >= 1
}

/// Exactly-once delivery: both at-most-once and at-least-once.
pub open spec fn exactly_once(sent: Seq<MessageV>, delivered: Seq<MessageV>) -> bool {
    at_most_once(sent, delivered) && at_least_once(sent, delivered)
}

/// The first index at or after `from` whose message carries payload `p`,
/// or the length when there is none.
pub open spec fn find_from(s: Seq<MessageV>, from: int, p: Seq<(Seq<char>, ValueV)>) -> int
    decreases s.len() - from,
    when 0 <= from <= s.len()
{
    if from >= s.len() {
        s.len() as int
    } else if s[from].fields == p {
        from
    } else {
        find_from(s, from + 1, p)
    }
}

/// The first index of payload `p` in `s`, or the length when absent.
pub open spec fn first_idx(s: Seq<MessageV>, p: Seq<(Seq<char>, ValueV)>) -> int {
    find_from(s, 0, p)
}

/// The sent payloads are pairwise distinct.
pub open spec fn payloads_distinct(s: Seq<MessageV>) -> bool {
    forall|a: int, b: int|
        0 <= a < b < s.len() ==> (#[trigger] s[a]).fields != (#[trigger] s[b]).fields
}

/// Ordered delivery: every delivered payload occurs among the sent
/// messages, and the indices the deliveries map to never decrease. With
/// pairwise-distinct sent payloads, two deliveries of different payloads
/// map to distinct indices, so their indices are strictly monotone.
pub open spec fn delivered_in_order(sent: Seq<MessageV>, delivered: Seq<MessageV>) -> bool {
    &&& forall|i: int|
        0 <= i < delivered.len() ==> first_idx(sent, (#[trigger] delivered[i]).fields) < sent.len()
    &&& forall|i: int, j: int|
        0 <= i < j < delivered.len() ==> first_idx(sent, (#[trigger] delivered[i]).fields)
            <= first_idx(sent, (#[trigger] delivered[j]).fields)
}

/// The forward-scanning order check, as the harness executes it: for each
/// delivery in turn, look for its payload among the sent messages at or
/// after the previous match.
pub open spec fn greedy_ordered(s: Seq<MessageV>, d: Seq<MessageV>, i: int, next: int) -> bool
    decreases d.len() - i,
    when 0 <= i <= d.len() && 0 <= next <= s.len()
{
    if i >= d.len() {
        true
    } else {
        let f = find_from(s, next, d[i].fields);
        if f >= s.len() {
            false
        } else {
            greedy_ordered(s, d, i + 1, f)
        }
    }
}

/// Basic shape of `find_from`: it lands on the first occurrence at or
/// after `from`.
pub proof fn lemma_find_from(s: Seq<MessageV>, from: int, p: Seq<(Seq<char>, ValueV)>)
    requires
        0 <= from <= s.len(),
    ensures
        from <= find_from(s, from, p) <= s.len(),
        find_from(s, from, p) < s.len() ==> s[find_from(s, from, p)].fields == p,
        forall|m: int| from <= m < find_from(s, from, p) ==> (#[trigger] s[m]).fields != p,
    decreases s.len() - from,
{
    if from < s.len() && s[from].fields != p {
        lemma_find_from(s, from + 1, p);
    }
}

/// With pairwise-distinct payloads, scanning from `from` finds the unique
/// occurrence when it lies at or after `from`, and nothing otherwise.
pub proof fn lemma_find_from_distinct(s: Seq<MessageV>, from: int, p: Seq<(Seq<char>, ValueV)>)
    requires
        payloads_distinct(s),
        0 <= from <= s.len(),
    ensures
        find_from(s, from, p) == (if first_idx(s, p) >= from {
            first_idx(s, p)
        } else {
            s.len() as int
        }),
{
    lemma_find_from(s, from, p);
    lemma_find_from(s, 0, p);
    let ff = find_from(s, from, p);
    let f0 = first_idx(s, p);
    if f0 >= from {
        if f0 < s.len() {
            assert(s[f0].fields == p);
            if ff > f0 {
                assert(s[f0].fields != p);
            }
            if ff < f0 {
                assert(s[ff].fields == p);
                assert(s[ff].fields != p);
            }
        } else {
            if ff < s.len() {
                assert(s[ff].fields == p);
                assert(s[ff].fields != p);
            }
        }
    } else {
        if ff < s.len() {
            assert(s[f0].fields == p);
            assert(s[ff].fields == p);
            assert(f0 < ff);
            assert(s[f0].fields != s[ff].fields);
        }
    }
}

/// The forward scan succeeds exactly when every remaining delivery is a
/// sent payload, the next one's index lies at or after the scan position,
/// and the remaining indices never decrease.
pub proof fn lemma_greedy_ordered(s: Seq<MessageV>, d: Seq<MessageV>, i: int, next: int)
    requires
        payloads_distinct(s),
        0 <= i <= d.len(),
        0 <= next <= s.len(),
    ensures
        greedy_ordered(s, d, i, next) == ({
            &&& forall|k: int|
                i <= k < d.len() ==> first_idx(s, (#[trigger] d[k]).fields) < s.len()
            &&& (i < d.len() ==> first_idx(s, d[i].fields) >= next)
            &&& forall|k: int, k2: int|
                i <= k < k2 < d.len() ==> first_idx(s, (#[trigger] d[k]).fields) <= first_idx(
                    s,
                    (#[trigger] d[k2]).fields,
                )
        }),
    decreases d.len() - i,
{
    if i < d.len() {
        let p = d[i].fields;
        lemma_find_from_distinct(s, next, p);
        lemma_find_from(s, next, p);
        let f = find_from(s, next, p);
        if f < s.len() {
            lemma_greedy_ordered(s, d, i + 1, f);
            assert(f == first_idx(s, p));
            if greedy_ordered(s, d, i, next) {
                assert forall|k: int, k2: int|
                    i <= k < k2 < d.len() implies first_idx(s, (#[trigger] d[k]).fields)
                    <= first_idx(s, (#[trigger] d[k2]).fields) by {
                    if k == i {
                        if k2 == i + 1 {
                        } else {
                            assert(first_idx(s, d[i + 1].fields) <= first_idx(s, d[k2].fields));
                        }
                        assert(first_idx(s, d[i + 1].fields) >= f);
                    }
                }
            }
        }
    }
}

/// The forward-scanning order check agrees with the declarative ordering
/// property whenever the sent payloads are pairwise distinct (the
/// scenario generators guarantee that).
pub proof fn lemma_ordered_delivery(sent: Seq<MessageV>, delivered: Seq<MessageV>)
    requires
        payloads_distinct(sent),
    ensures
        greedy_ordered(sent, delivered, 0, 0) == delivered_in_order(sent, delivered),
{
    lemma_greedy_ordered(sent, delivered, 0, 0);
    if delivered.len() > 0 {
        lemma_find_from(sent, 0, delivered[0].fields);
    }
}

/// Under ordered delivery of distinct sent payloads, two deliveries of
/// different payloads map to strictly increasing sent indices.
pub proof fn lemma_ordered_strict(sent: Seq<MessageV>, delivered: Seq<MessageV>, i: int, j: int)
    requires
        payloads_distinct(sent),
        delivered_in_order(sent, delivered),
        0 <= i < j < delivered.len(),
        delivered[i].fields != delivered[j].fields,
    ensures
        first_idx(sent, delivered[i].fields) < first_idx(sent, delivered[j].fields),
{
    lemma_find_from(sent, 0, delivered[i].fields);
    lemma_find_from(sent, 0, delivered[j].fields);
    let fi = first_idx(sent, delivered[i].fields);
    let fj = first_idx(sent, delivered[j].fields);
    if fi == fj {
        assert(sent[fi].fields == delivered[i].fields);
        assert(sent[fj].fields == delivered[j].fields);
    }
}

/// Counts the messages in `v` that carry payload `p`.
pub fn count_payload_x(v: &Vec<Message>, p: &Payload) -> (r: usize)
    ensures
        r == count_payload(msg_views(v@), p@),
{
    let ghost mv = msg_views(v@);
    let mut r: usize = 0;
    let mut i: usize = 0;
    while i < v.len()
        invariant
            mv == msg_views(v@),
            i <= v@.len(),
            mv.len() == v@.len(),
            r <= i,
            r == count_payload(mv.take(i as int), p@),
        decreases v@.len() - i,
    {
        proof {
            assert(mv[i as int] == v@[i as int]@);
            assert(mv.take(i + 1 as int).drop_last() =~= mv.take(i as int));
            assert(mv.take(i + 1 as int).last() == mv[i as int]);
        }
        if payload_eq(&v[i].payload, p) {
            r += 1;
        }
        i += 1;
    }
    proof {
        assert(mv.take(mv.len() as int) =~= mv);
    }
    r
}

/// Decides at-most-once delivery.
pub fn check_at_most_once(sent: &Vec<Message>, delivered: &Vec<Message>) -> (r: bool)
    ensures
        r == at_most_once(msg_views(sent@), msg_views(delivered@)),
{
    let ghost sv = msg_views(sent@);
    let ghost dv = msg_views(delivered@);
    let mut i: usize = 0;
    while i < delivered.len()
        invariant
            sv == msg_views(sent@),
            dv == msg_views(delivered@),
            i <= delivered@.len(),
            dv.len() == delivered@.len(),
            forall|k: int|
                0 <= k < i ==> count_payload(dv, (#[trigger] dv[k]).fields) <= count_payload(
                    sv,
                    dv[k].fields,
                ),
        decreases delivered@.len() - i,
    {
        proof {
            assert(dv[i as int] == delivered@[i as int]@);
        }
        let cd = count_payload_x(delivered, &delivered[i].payload);
        let cs = count_payload_x(sent, &delivered[i].payload);
        if cd > cs {
            return false;
        }
        i += 1;
    }
    true
}

/// Decides at-least-once delivery.
pub fn check_at_least_once(sent: &Vec<Message>, delivered: &Vec<Message>) -> (r: bool)
    ensures
        r == at_least_once(msg_views(sent@), msg_views(delivered@)),
{
    let ghost sv = msg_views(sent@);
    let ghost dv = msg_views(delivered@);
    let mut i: usize = 0;
    while i < sent.len()
        invariant
            sv == msg_views(sent@),
            dv == msg_views(delivered@),
            i <= sent@.len(),
            sv.len() == sent@.len(),
            forall|k: int|
                0 <= k < i ==> count_payload(dv, (#[trigger] sv[k]).fields) >= 1,
        decreases sent@.len() - i,
    {
        proof {
            assert(sv[i as int] == sent@[i as int]@);
        }
        let cd = count_payload_x(delivered, &sent[i].payload);
        if cd == 0 {
            return false;
        }
        i += 1;
    }
    true
}

/// Decides exactly-once delivery.
pub fn check_exactly_once(sent: &Vec<Message>, delivered: &Vec<Message>) -> (r: bool)
    ensures
        r == exactly_once(msg_views(sent@), msg_views(delivered@)),
{
    let amo = check_at_most_once(sent, delivered);
    let alo = check_at_least_once(sent, delivered);
    amo && alo
}

/// Decides ordered delivery by the forward scan: each delivery must find
/// its payload among the sent messages at or after the previous match.
pub fn check_ordered(sent: &Vec<Message>, delivered: &Vec<Message>) -> (r: bool)
    ensures
        r == greedy_ordered(msg_views(sent@), msg_views(delivered@), 0, 0),
{
    let ghost sv = msg_views(sent@);
    let ghost dv = msg_views(delivered@);
    let mut next: usize = 0;
    let mut i: usize = 0;
    while i < delivered.len()
        invariant
            sv == msg_views(sent@),
            dv == msg_views(delivered@),
            sv.len() == sent@.len(),
            dv.len() == delivered@.len(),
            i <= delivered@.len(),
            next <= sent@.len(),
            greedy_ordered(sv, dv, 0, 0) == greedy_ordered(sv, dv, i as int, next as int),
        decreases delivered@.len() - i,
    {
        proof {
            assert(dv[i as int] == delivered@[i as int]@);
        }
        let ghost entry_next = next as int;
        let mut matched = false;
        while !matched && next < sent.len()
            invariant
                sv == msg_views(sent@),
                dv == msg_views(delivered@),
                sv.len() == sent@.len(),
                dv.len() == delivered@.len(),
                i < delivered@.len(),
                dv[i as int] == delivered@[i as int]@,
                entry_next <= next as int <= sent@.len(),
                find_from(sv, entry_next, dv[i as int].fields) == (if matched {
                    next as int
                } else {
                    find_from(sv, next as int, dv[i as int].fields)
                }),
                matched ==> next < sent@.len(),
            decreases sent@.len() - next + (if matched {
                0int
            } else {
                1int
            }),
        {
            proof {
                assert(sv[next as int] == sent@[next as int]@);
            }
            if payload_eq(&delivered[i].payload, &sent[next].payload) {
                matched = true;
            } else {
                next += 1;
            }
        }
        if !matched {
            proof {
                assert(find_from(sv, entry_next, dv[i as int].fields) == sv.len());
                assert(!greedy_ordered(sv, dv, i as int, entry_next));
            }
            return false;
        }
        proof {
            assert(find_from(sv, entry_next, dv[i as int].fields) == next as int);
            assert(greedy_ordered(sv, dv, i as int, entry_next) == greedy_ordered(
                sv,
                dv,
                i + 1 as int,
                next as int,
            ));
        }
        i += 1;
    }
    true
}

/// Why a delivery-guarantee check failed.
#[derive(Clone, Copy, PartialEq, Eq, Structural, Debug)]
pub enum GuaranteeViolation {
    /// A delivered message carries a kind other than the sent kind.
    WrongType,
    /// A delivered payload was never sent.
    UnexpectedMessage,
    /// A sent payload was never delivered (reliable configurations).
    NotDelivered,
    /// A payload was delivered more often than sent (once configurations).
    DuplicateDelivery,
    /// Deliveries left the sending order (ordered configurations).
    OrderViolation,
}

/// All delivered messages carry the kind of the first sent message.
pub open spec fn tips_match(sent: Seq<MessageV>, delivered: Seq<MessageV>) -> bool {
    forall|i: int| 0 <= i < delivered.len() ==> (#[trigger] delivered[i]).tip == sent[0].tip
}

/// Every delivered payload occurs among the sent messages.
pub open spec fn no_creation(sent: Seq<MessageV>, delivered: Seq<MessageV>) -> bool {
    forall|i: int|
        0 <= i < delivered.len() ==> count_payload(sent, (#[trigger] delivered[i]).fields) > 0
}

/// The verdict of the guarantee check, in the order the checks run.
pub open spec fn check_guarantees_spec(
    sent: Seq<MessageV>,
    delivered: Seq<MessageV>,
    reliable: bool,
    once: bool,
    ordered: bool,
) -> Result<(), GuaranteeViolation> {
    if !tips_match(sent, delivered) {
        Result::Err(GuaranteeViolation::WrongType)
    } else if !no_creation(sent, delivered) {
        Result::Err(GuaranteeViolation::UnexpectedMessage)
    } else if reliable && !at_least_once(sent, delivered) {
        Result::Err(GuaranteeViolation::NotDelivered)
    } else if once && !at_most_once(sent, delivered) {
        Result::Err(GuaranteeViolation::DuplicateDelivery)
    } else if ordered && !greedy_ordered(sent, delivered, 0, 0) {
        Result::Err(GuaranteeViolation::OrderViolation)
    } else {
        Result::Ok(())
    }
}

/// Whether every delivered message carries the first sent message's kind.
fn check_tips(sent: &Vec<Message>, delivered: &Vec<Message>) -> (r: bool)
    requires
        sent@.len() > 0 || delivered@.len() == 0,
    ensures
        r == tips_match(msg_views(sent@), msg_views(delivered@)),
{
    let ghost sv = msg_views(sent@);
    let ghost dv = msg_views(delivered@);
    if delivered.len() == 0 {
        return true;
    }
    proof {
        assert(sv[0] == sent@[0]@);
    }
    let mut i: usize = 0;
    while i < delivered.len()
        invariant
            sv == msg_views(sent@),
            dv == msg_views(delivered@),
            sent@.len() > 0,
            sv[0] == sent@[0]@,
            i <= delivered@.len(),
            dv.len() == delivered@.len(),
            forall|k: int| 0 <= k < i ==> (#[trigger] dv[k]).tip == sv[0].tip,
        decreases delivered@.len() - i,
    {
        proof {
            assert(dv[i as int] == delivered@[i as int]@);
        }
        if !str_eq(delivered[i].tip.as_str(), sent[0].tip.as_str()) {
            return false;
        }
        i += 1;
    }
    true
}

/// Whether every delivered payload occurs among the sent messages.
fn check_no_creation(sent: &Vec<Message>, delivered: &Vec<Message>) -> (r: bool)
    ensures
        r == no_creation(msg_views(sent@), msg_views(delivered@)),
{
    let ghost sv = msg_views(sent@);
    let ghost dv = msg_views(delivered@);
    let mut i: usize = 0;
    while i < delivered.len()
        invariant
            sv == msg_views(sent@),
            dv == msg_views(delivered@),
            i <= delivered@.len(),
            dv.len() == delivered@.len(),
            forall|k: int| 0 <= k < i ==> count_payload(sv, (#[trigger] dv[k]).fields) > 0,
        decreases delivered@.len() - i,
    {
        proof {
            assert(dv[i as int] == delivered@[i as int]@);
        }
        let c = count_payload_x(sent, &delivered[i].payload);
        if c == 0 {
            return false;
        }
        i += 1;
    }
    true
}

/// Checks the configured delivery guarantees of one run: the delivered
/// sequence must carry the sent kind and only sent payloads; reliable
/// configurations demand at-least-once, once configurations at-most-once,
/// and ordered configurations the forward-scan order.
pub fn check_guarantees(
    sent: &Vec<Message>,
    delivered: &Vec<Message>,
    reliable: bool,
    once: bool,
    ordered: bool,
) -> (r: Result<(), GuaranteeViolation>)
    requires
        sent@.len() > 0 || delivered@.len() == 0,
    ensures
        r == check_guarantees_spec(msg_views(sent@), msg_views(delivered@), reliable, once, ordered),
        r is Ok <==> ({
            &&& tips_match(msg_views(sent@), msg_views(delivered@))
            &&& no_creation(msg_views(sent@), msg_views(delivered@))
            &&& reliable ==> at_least_once(msg_views(sent@), msg_views(delivered@))
            &&& once ==> at_most_once(msg_views(sent@), msg_views(delivered@))
            &&& ordered ==> greedy_ordered(msg_views(sent@), msg_views(delivered@), 0, 0)
        }),
{
    if !check_tips(sent, delivered) {
        return Result::Err(GuaranteeViolation::WrongType);
    }
    if !check_no_creation(sent, delivered) {
        return Result::Err(GuaranteeViolation::UnexpectedMessage);
    }
    if reliable && !check_at_least_once(sent, delivered) {
        return Result::Err(GuaranteeViolation::NotDelivered);
    }
    if once && !check_at_most_once(sent, delivered) {
        return Result::Err(GuaranteeViolation::DuplicateDelivery);
    }
    if ordered && !check_ordered(sent, delivered) {
        return Result::Err(GuaranteeViolation::OrderViolation);
    }
    Result::Ok(())
}

/// The local-output messages of a node's event log, in order.
pub fn local_outputs(events: &Vec<LocalEvent>) -> (r: Vec<Message>)
    ensures
        msg_views(r@) == outputs_of(log_views(events@)),
{
    let ghost lv = log_views(events@);
    let mut out: Vec<Message> = Vec::new();
    let mut i: usize = 0;
    while i < events.len()
        invariant
            lv == log_views(events@),
            i <= events@.len(),
            lv.len() == events@.len(),
            msg_views(out@) == outputs_of(lv.take(i as int)),
        decreases events@.len() - i,
    {
        let ghost outpre = msg_views(out@);
        proof {
            assert(lv[i as int] == events@[i as int]@);
            assert(lv.take(i + 1 as int).drop_last() =~= lv.take(i as int));
            assert(lv.take(i + 1 as int).last() == lv[i as int]);
        }
        let is_output = match events[i].kind {
            LocalKind::Output => true,
            LocalKind::Input => false,
        };
        if is_output {
            let m = crate::msg::dup_message(&events[i].msg);
            out.push(m);
            proof {
                assert(msg_views(out@) =~= outpre.push(lv[i as int].msg));
            }
        }
        i += 1;
    }
    proof {
        assert(lv.take(lv.len() as int) =~= lv);
    }
    out
}

/// The delivery guarantee a configuration is scored against.
#[derive(Clone, Copy, PartialEq, Eq, Structural, Debug)]
pub enum Guarantee {
    AtMostOnce,
    AtLeastOnce,
    ExactlyOnce,
    ExactlyOnceOrdered,
}

/// The overhead budget table: for a guarantee, a message count and a
/// faulty or reliable network, the limits on sender memory, receiver
/// memory, wire-message count and wire traffic. Unlisted message counts
/// are unconstrained.
pub open spec fn spec_overhead_limits(g: Guarantee, message_count: u64, faulty: bool) -> (
    u64,
    u64,
    u64,
    u64,
) {
    match g {
        Guarantee::AtMostOnce => {
            if message_count == 100 {
                if !faulty {
                    (500u64, 1000u64, 100u64, 15000u64)
                } else {
                    (500u64, 3000u64, 100u64, 15000u64)
                }
            } else if message_count == 1000 {
                if !faulty {
                    (500u64, 1000u64, 1000u64, 150000u64)
                } else {
                    (500u64, 30000u64, 1000u64, 150000u64)
                }
            } else {
                (u64::MAX, u64::MAX, u64::MAX, u64::MAX)
            }
        },
        Guarantee::AtLeastOnce => {
            if message_count == 100 {
                if !faulty {
                    (2000u64, 300u64, 200u64, 15000u64)
                } else {
                    (30000u64, 300u64, 500u64, 30000u64)
                }
            } else if message_count == 1000 {
                if !faulty {
                    (10000u64, 300u64, 2000u64, 150000u64)
                } else {
                    (400000u64, 300u64, 5000u64, 300000u64)
                }
            } else {
                (u64::MAX, u64::MAX, u64::MAX, u64::MAX)
            }
        },
        Guarantee::ExactlyOnce => {
            if message_count == 100 {
                if !faulty {
                    (2000u64, 1000u64, 200u64, 15000u64)
                } else {
                    (30000u64, 2000u64, 500u64, 30000u64)
                }
            } else if message_count == 1000 {
                if !faulty {
                    (10000u64, 1000u64, 2000u64, 150000u64)
                } else {
                    (400000u64, 20000u64, 5000u64, 300000u64)
                }
            } else {
                (u64::MAX, u64::MAX, u64::MAX, u64::MAX)
            }
        },
        Guarantee::ExactlyOnceOrdered => {
            if message_count == 100 {
                if !faulty {
                    (3000u64, 1000u64, 200u64, 16000u64)
                } else {
                    (20000u64, 6000u64, 500u64, 30000u64)
                }
            } else if message_count == 1000 {
                if !faulty {
                    (10000u64, 1000u64, 2000u64, 200000u64)
                } else {
                    (300000u64, 10000u64, 5000u64, 400000u64)
                }
            } else {
                (u64::MAX, u64::MAX, u64::MAX, u64::MAX)
            }
        },
    }
}

/// The budget limits for one configuration, exactly as the table states
/// them.
pub fn overhead_limits(g: Guarantee, message_count: u64, faulty: bool) -> (r: (u64, u64, u64, u64))
    ensures
        r == spec_overhead_limits(g, message_count, faulty),
{
    match g {
        Guarantee::AtMostOnce => {
            if message_count == 100 {
                if !faulty {
                    (500, 1000, 100, 15000)
                } else {
                    (500, 3000, 100, 15000)
                }
            } else if message_count == 1000 {
                if !faulty {
                    (500, 1000, 1000, 150000)
                } else {
                    (500, 30000, 1000, 150000)
                }
            } else {
                (u64::MAX, u64::MAX, u64::MAX, u64::MAX)
            }
        },
        Guarantee::AtLeastOnce => {
            if message_count == 100 {
                if !faulty {
                    (2000, 300, 200, 15000)
                } else {
                    (30000, 300, 500, 30000)
                }
            } else if message_count == 1000 {
                if !faulty {
                    (10000, 300, 2000, 150000)
                } else {
                    (400000, 300, 5000, 300000)
                }
            } else {
                (u64::MAX, u64::MAX, u64::MAX, u64::MAX)
            }
        },
        Guarantee::ExactlyOnce => {
            if message_count == 100 {
                if !faulty {
                    (2000, 1000, 200, 15000)
                } else {
                    (30000, 2000, 500, 30000)
                }
            } else if message_count == 1000 {
                if !faulty {
                    (10000, 1000, 2000, 150000)
                } else {
                    (400000, 20000, 5000, 300000)
                }
            } else {
                (u64::MAX, u64::MAX, u64::MAX, u64::MAX)
            }
        },
        Guarantee::ExactlyOnceOrdered => {
            if message_count == 100 {
                if !faulty {
                    (3000, 1000, 200, 16000)
                } else {
                    (20000, 6000, 500, 30000)
                }
            } else if message_count == 1000 {
                if !faulty {
                    (10000, 1000, 2000, 200000)
                } else {
                    (300000, 10000, 5000, 400000)
                }
            } else {
                (u64::MAX, u64::MAX, u64::MAX, u64::MAX)
            }
        },
    }
}

/// Which budget an implementation exceeded.
#[derive(Clone, Copy, PartialEq, Eq, Structural, Debug)]
pub enum OverheadViolation {
    SenderMemory,
    ReceiverMemory,
    MessageCount,
    Traffic,
}

/// The verdict of the overhead check, in the order the limits are tried.
pub open spec fn check_overhead_spec(
    g: Guarantee,
    faulty: bool,
    message_count: u64,
    sender_mem: u64,
    receiver_mem: u64,
    net_message_count: u64,
    net_traffic: u64,
) -> Result<(), OverheadViolation> {
    let limits = spec_overhead_limits(g, message_count, faulty);
    if sender_mem > limits.0 {
        Result::Err(OverheadViolation::SenderMemory)
    } else if receiver_mem > limits.1 {
        Result::Err(OverheadViolation::ReceiverMemory)
    } else if net_message_count > limits.2 {
        Result::Err(OverheadViolation::MessageCount)
    } else if net_traffic > limits.3 {
        Result::Err(OverheadViolation::Traffic)
    } else {
        Result::Ok(())
    }
}

/// Scores one run against the overhead budget table.
pub fn check_overhead(
    g: Guarantee,
    faulty: bool,
    message_count: u64,
    sender_mem: u64,
    receiver_mem: u64,
    net_message_count: u64,
    net_traffic: u64,
) -> (r: Result<(), OverheadViolation>)
    ensures
        r == check_overhead_spec(
            g,
            faulty,
            message_count,
            sender_mem,
            receiver_mem,
            net_message_count,
            net_traffic,
        ),
{
    let limits = overhead_limits(g, message_count, faulty);
    if sender_mem > limits.0 {
        Result::Err(OverheadViolation::SenderMemory)
    } else if receiver_mem > limits.1 {
        Result::Err(OverheadViolation::ReceiverMemory)
    } else if net_message_count > limits.2 {
        Result::Err(OverheadViolation::MessageCount)
    } else if net_traffic > limits.3 {
        Result::Err(OverheadViolation::Traffic)
    } else {
        Result::Ok(())
    }
}

/// The five fixed scenario texts.
pub open spec fn five_words() -> Seq<Seq<char>> {
    seq!["distributed"@, "systems"@, "need"@, "some"@, "guarantees"@]
}

/// The message texts of one run: the five fixed words for a five-message
/// run (drawing nothing), short numbered texts for a ten-message run, and
/// long random strings otherwise — in the latter cases every character is
/// pinned to the engine's seeded stream, which nothing else touches.
pub fn generate_message_texts<N: Node>(sys: &mut System<N>, message_count: usize) -> (r: Vec<
    String,
>)
    requires
        old(sys).wf(),
    ensures
        final(sys).wf(),
        session_frame(*old(sys), *final(sys)),
        r@.len() == message_count,
        message_count == 5 ==> crate::strutil::views_of(r@) == five_words() && *final(sys) == *old(
            sys,
        ),
        message_count == 10 ==> (forall|i: int|
            0 <= i < 10 ==> (#[trigger] r@[i])@ == spec_dec(
                (20 + rng_output(rng_step_n(old(sys).rng.state, i + 1)) % 10) as int,
            ) + "C"@) && final(sys).rng.state == rng_step_n(old(sys).rng.state, 10),
        message_count != 5 && message_count != 10 ==> (forall|i: int|
            0 <= i < message_count ==> (#[trigger] r@[i])@ == rand_text(
                rng_step_n(old(sys).rng.state, 100 * i),
                100,
            )) && final(sys).rng.state == rng_step_n(
            old(sys).rng.state,
            100 * message_count as int,
        ),
        final(sys).slots() == old(sys).slots(),
        final(sys).queue@ == old(sys).queue@,
        final(sys).now == old(sys).now,
        final(sys).msg_count == old(sys).msg_count,
        final(sys).traffic == old(sys).traffic,
{
    let ghost o = *old(sys);
    proof {
        lemma_session_frame_refl(o);
    }
    if message_count == 5 {
        let mut out: Vec<String> = Vec::new();
        out.push(String::from_str("distributed"));
        out.push(String::from_str("systems"));
        out.push(String::from_str("need"));
        out.push(String::from_str("some"));
        out.push(String::from_str("guarantees"));
        proof {
            assert(crate::strutil::views_of(out@) =~= five_words());
        }
        out
    } else if message_count == 10 {
        let ghost s0 = sys.rng.state;
        let mut out: Vec<String> = Vec::new();
        let mut i: usize = 0;
        while i < 10
            invariant
                o == *old(sys),
                sys.wf(),
                session_frame(o, *sys),
                s0 == o.rng.state,
                sys.rng.state == rng_step_n(s0, i as int),
                sys.slots() == o.slots(),
                sys.queue@ == o.queue@,
                sys.now == o.now,
                sys.msg_count == o.msg_count,
                sys.traffic == o.traffic,
                crate::system::net_config_unchanged(o, *sys),
                i <= 10,
                out@.len() == i,
                forall|j: int|
                    0 <= j < i ==> (#[trigger] out@[j])@ == spec_dec(
                        (20 + rng_output(rng_step_n(s0, j + 1)) % 10) as int,
                    ) + "C"@,
            decreases 10 - i,
        {
            let ghost pre = *sys;
            let n = sys.gen_range(20, 30);
            let mut t = crate::strutil::u64_to_dec(n);
            t.append("C");
            proof {
                assert(sys.rng.state == rng_step_n(s0, i + 1 as int));
                assert(t@ == spec_dec((20 + rng_output(rng_step_n(s0, i + 1)) % 10) as int)
                    + "C"@);
                lemma_session_frame_refl(pre);
                assert(sys.slots().len() == sys.nodes@.len());
                assert(pre.slots().len() == pre.nodes@.len());
                assert(session_frame(pre, *sys));
                lemma_session_frame_trans(o, pre, *sys);
            }
            out.push(t);
            i += 1;
        }
        out
    } else {
        let ghost s0 = sys.rng.state;
        let mut out: Vec<String> = Vec::new();
        let mut i: usize = 0;
        while i < message_count
            invariant
                o == *old(sys),
                sys.wf(),
                session_frame(o, *sys),
                s0 == o.rng.state,
                sys.rng.state == rng_step_n(s0, 100 * i as int),
                sys.slots() == o.slots(),
                sys.queue@ == o.queue@,
                sys.now == o.now,
                sys.msg_count == o.msg_count,
                sys.traffic == o.traffic,
                crate::system::net_config_unchanged(o, *sys),
                i <= message_count,
                out@.len() == i,
                forall|j: int|
                    0 <= j < i ==> (#[trigger] out@[j])@ == rand_text(rng_step_n(s0, 100 * j), 100),
            decreases message_count - i,
        {
            let ghost pre = *sys;
            let text = rand_string(&mut sys.rng, 100);
            proof {
                lemma_rng_step_n_add(s0, 100 * i as int, 100);
                assert(sys.rng.state == rng_step_n(s0, 100 * (i + 1) as int));
                assert(text@ == rand_text(rng_step_n(s0, 100 * i as int), 100));
                assert(sys.slots() =~= pre.slots());
                lemma_session_frame_refl(pre);
                assert(sys.slots().len() == sys.nodes@.len());
                assert(pre.slots().len() == pre.nodes@.len());
                assert(session_frame(pre, *sys));
                lemma_session_frame_trans(o, pre, *sys);
            }
            out.push(text);
            i += 1;
        }
        out
    }
}

/// A local input carrying this message stands somewhere in the log.
pub open spec fn input_logged(log: Seq<LocalEventV>, m: MessageV) -> bool {
    exists|k: int|
        0 <= k < log.len() && (#[trigger] log[k]).kind == LocalKind::Input && log[k].msg == m
}

/// Every one of these envelopes stands in the log as a local input.
pub open spec fn inputs_logged(log: Seq<LocalEventV>, msgs: Seq<Message>) -> bool {
    forall|m: int| 0 <= m < msgs.len() ==> input_logged(log, (#[trigger] msgs[m])@)
}

/// A logged input survives any extension of the log.
proof fn lemma_input_persists(a: Seq<LocalEventV>, b: Seq<LocalEventV>, m: MessageV)
    requires
        input_logged(a, m),
        a.is_prefix_of(b),
    ensures
        input_logged(b, m),
{
    let k = choose|k: int|
        0 <= k < a.len() && (#[trigger] a[k]).kind == LocalKind::Input && a[k].msg == m;
    assert(a =~= b.take(a.len() as int));
    assert(b[k] == a[k]);
}

/// Logged inputs survive any extension of the log.
proof fn lemma_inputs_persist(a: Seq<LocalEventV>, b: Seq<LocalEventV>, msgs: Seq<Message>)
    requires
        inputs_logged(a, msgs),
        a.is_prefix_of(b),
    ensures
        inputs_logged(b, msgs),
{
    assert forall|m: int| 0 <= m < msgs.len() implies input_logged(b, (#[trigger] msgs[m])@) by {
        lemma_input_persists(a, b, msgs[m]@);
    }
}

/// One more logged envelope extends the collection.
proof fn lemma_inputs_logged_push(log: Seq<LocalEventV>, msgs: Seq<Message>, x: Message)
    requires
        inputs_logged(log, msgs),
        input_logged(log, x@),
    ensures
        inputs_logged(log, msgs.push(x)),
{
    assert forall|m: int| 0 <= m < msgs.push(x).len() implies input_logged(
        log,
        (#[trigger] msgs.push(x)[m])@,
    ) by {
        if m < msgs.len() {
            assert(msgs.push(x)[m] == msgs[m]);
        } else {
            assert(msgs.push(x)[m] == x);
        }
    }
}

/// Injects one message into the sender and runs a short burst of steps
/// drawn from the engine stream. When the sender exists and is not
/// crashed, the injected envelope stands in its log as a local input.
fn inject_one<N: Node>(sys: &mut System<N>, msg: Message, bound: u64)
    requires
        old(sys).wf(),
        bound > 1,
    ensures
        final(sys).wf(),
        session_frame(*old(sys), *final(sys)),
        old(sys).has_id("sender"@) && !old(sys).slots()[old(sys).idx_of("sender"@)].crashed
            ==> input_logged(final(sys).slots()[old(sys).idx_of("sender"@)].log, msg@),
{
    let ghost o = *old(sys);
    let ghost live = o.has_id("sender"@) && !o.slots()[o.idx_of("sender"@)].crashed;
    let ghost idx = o.idx_of("sender"@);
    let ghost msgv = msg@;
    sys.send_local(msg, "sender");
    let ghost s1 = *sys;
    proof {
        if live {
            let ghost ll = o.slots()[idx].log;
            let ghost entry = LocalEventV {
                kind: LocalKind::Input,
                time: crate::strutil::clip64(o.now + o.slots()[idx].skew) as u64,
                msg: msgv,
            };
            assert(ll.push(entry).is_prefix_of(s1.slots()[idx].log));
            assert(s1.slots()[idx].log[ll.len() as int].kind == LocalKind::Input
                && s1.slots()[idx].log[ll.len() as int].msg == msgv) by {
                let pushed = ll.push(entry);
                assert(pushed =~= s1.slots()[idx].log.take(pushed.len() as int));
                assert(s1.slots()[idx].log[ll.len() as int] == pushed[ll.len() as int]);
            }
            assert(input_logged(s1.slots()[idx].log, msgv));
        }
    }
    let n = sys.gen_range(1, bound);
    let ghost s2 = *sys;
    proof {
        assert(s2.slots() =~= s1.slots());
        lemma_session_frame_refl(s1);
        assert(s2.slots().len() == s2.nodes@.len());
        assert(s1.slots().len() == s1.nodes@.len());
        assert(session_frame(s1, s2));
        lemma_session_frame_trans(o, s1, s2);
    }
    sys.steps(n);
    proof {
        lemma_run_frame_session(s2, *sys);
        lemma_session_frame_trans(o, s2, *sys);
        if live {
            assert(s2.slots()[idx].log.is_prefix_of(sys.slots()[idx].log));
            assert(s1.slots()[idx].log.is_prefix_of(sys.slots()[idx].log));
            lemma_input_persists(s1.slots()[idx].log, sys.slots()[idx].log, msgv);
        }
    }
}

/// Injects one run's messages into the sender, interleaved with short
/// random bursts of engine steps, and returns the sent envelopes. When
/// the sender exists and is not crashed, every returned envelope stands
/// in its final log as a local input.
#[verifier::rlimit(100)]
#[verifier::spinoff_prover]
pub fn send_messages<N: Node>(sys: &mut System<N>, message_count: usize) -> (r: Vec<Message>)
    requires
        old(sys).wf(),
    ensures
        final(sys).wf(),
        session_frame(*old(sys), *final(sys)),
        r@.len() == message_count,
        message_count == 5 ==> forall|i: int|
            0 <= i < 5 ==> (#[trigger] r@[i]@).fields == seq![
                ("text"@, ValueV::S(five_words()[i])),
            ] && r@[i]@.tip == "MESSAGE"@,
        old(sys).has_id("sender"@) && !old(sys).slots()[old(sys).idx_of("sender"@)].crashed
            ==> inputs_logged(final(sys).slots()[old(sys).idx_of("sender"@)].log, r@),
{
    let ghost o = *old(sys);
    let ghost live = o.has_id("sender"@) && !o.slots()[o.idx_of("sender"@)].crashed;
    let ghost idx = o.idx_of("sender"@);
    proof {
        if live {
            assert(0 <= idx < o.nodes@.len() && o.slots()[idx].id == "sender"@);
        }
    }
    let texts = generate_message_texts(sys, message_count);
    let mut out: Vec<Message> = Vec::new();
    let mut i: usize = 0;
    while i < texts.len()
        invariant
            o == *old(sys),
            sys.wf(),
            session_frame(o, *sys),
            live == (o.has_id("sender"@) && !o.slots()[o.idx_of("sender"@)].crashed),
            idx == o.idx_of("sender"@),
            sys.nodes@.len() == o.nodes@.len(),
            live ==> 0 <= idx < o.nodes@.len() && sys.slots()[idx].id == "sender"@
                && !sys.slots()[idx].crashed,
            texts@.len() == message_count,
            i <= texts@.len(),
            out@.len() == i,
            message_count == 5 ==> crate::strutil::views_of(texts@) == five_words(),
            forall|k: int|
                0 <= k < i ==> (#[trigger] out@[k]@).fields == seq![
                    ("text"@, ValueV::S(texts@[k]@)),
                ] && out@[k]@.tip == "MESSAGE"@,
            live ==> inputs_logged(sys.slots()[idx].log, out@),
        decreases texts@.len() - i,
    {
        let payload = Payload::empty().with_str("text", texts[i].as_str());
        let msg = Message::new("MESSAGE", payload);
        let ghost msgv = msg@;
        proof {
            assert(msgv.fields =~= seq![("text"@, ValueV::S(texts@[i as int]@))]);
        }
        let copy = crate::msg::dup_message(&msg);
        let bound: u64 = if message_count <= 10 {
            7
        } else {
            14
        };
        let ghost pre = *sys;
        proof {
            if live {
                assert(pre.slots()[idx].id == "sender"@);
                crate::system::lemma_idx_of(pre, idx);
                assert(pre.has_id("sender"@));
                assert(pre.idx_of("sender"@) == idx);
            }
        }
        inject_one(sys, msg, bound);
        proof {
            lemma_session_frame_trans(o, pre, *sys);
            if live {
                assert(pre.slots()[idx].log.is_prefix_of(sys.slots()[idx].log));
                lemma_inputs_persist(pre.slots()[idx].log, sys.slots()[idx].log, out@);
                assert(input_logged(sys.slots()[idx].log, msgv));
                lemma_inputs_logged_push(sys.slots()[idx].log, out@, copy);
            }
        }
        out.push(copy);
        i += 1;
    }
    proof {
        if message_count == 5 {
            assert(crate::strutil::views_of(texts@)[0] == texts@[0]@);
            assert(crate::strutil::views_of(texts@)[1] == texts@[1]@);
            assert(crate::strutil::views_of(texts@)[2] == texts@[2]@);
            assert(crate::strutil::views_of(texts@)[3] == texts@[3]@);
            assert(crate::strutil::views_of(texts@)[4] == texts@[4]@);
        }
    }
    out
}

} // verus!
