//! The sharded key-value harness: request drivers for the store protocol
//! (get, put, delete, key dumps, record counts), the stabilization loop
//! over record counts, and the pure correctness checks — all keys stored,
//! each on exactly one node, balanced distribution, bounded migration.

use vstd::prelude::*;
use crate::msg::{Message, MessageV, Value, ValueV, Payload, lookup_field, dup_str_vec};
use crate::node::{Node, LocalKind};
use crate::strutil::{str_eq, views_of, seq_has_text, contains_text, sat_add64};
use crate::system::{System, session_frame, lemma_session_frame_refl, lemma_session_frame_trans, lemma_run_frame_session};

verus! {

/// Whether a reply message is a well-formed `GET_RESP` for the key with
/// the expected value (`None` expects a null value).
pub open spec fn get_resp_ok(m: MessageV, key: Seq<char>, expected: Option<Seq<char>>) -> bool {
    &&& m.tip == "GET_RESP"@
    &&& lookup_field(m.fields, "key"@) == Option::Some(ValueV::S(key))
    &&& match expected {
        Option::Some(v) => lookup_field(m.fields, "value"@) == Option::Some(ValueV::S(v)),
        Option::None => lookup_field(m.fields, "value"@) == Option::Some(ValueV::Null),
    }
}

/// Judges a `GET_RESP` reply against the key and the expected value.
pub fn judge_get_resp(m: &Message, key: &str, expected: Option<&String>) -> (r: bool)
    ensures
        r == get_resp_ok(
            m@,
            key@,
            match expected {
                Option::Some(v) => Option::Some(v@),
                Option::None => Option::None,
            },
        ),
{
    if !str_eq(m.tip.as_str(), "GET_RESP") {
        return false;
    }
    let key_ok = match m.payload.get("key") {
        Option::Some(v) => match v {
            Value::S(s) => str_eq(s.as_str(), key),
            _ => false,
        },
        Option::None => false,
    };
    if !key_ok {
        return false;
    }
    match m.payload.get("value") {
        Option::Some(v) => match (v, expected) {
            (Value::S(s), Option::Some(e)) => str_eq(s.as_str(), e.as_str()),
            (Value::Null, Option::None) => true,
            _ => false,
        },
        Option::None => false,
    }
}

/// Whether a reply message is a well-formed response of the given kind
/// echoing the key with a string value.
pub open spec fn kv_resp_ok(m: MessageV, tip: Seq<char>, key: Seq<char>, value: Seq<char>) -> bool {
    &&& m.tip == tip
    &&& lookup_field(m.fields, "key"@) == Option::Some(ValueV::S(key))
    &&& lookup_field(m.fields, "value"@) == Option::Some(ValueV::S(value))
}

/// Judges a key/value echo reply.
pub fn judge_kv_resp(m: &Message, tip: &str, key: &str, value: &str) -> (r: bool)
    ensures
        r == kv_resp_ok(m@, tip@, key@, value@),
{
    if !str_eq(m.tip.as_str(), tip) {
        return false;
    }
    let key_ok = match m.payload.get("key") {
        Option::Some(v) => match v {
            Value::S(s) => str_eq(s.as_str(), key),
            _ => false,
        },
        Option::None => false,
    };
    if !key_ok {
        return false;
    }
    match m.payload.get("value") {
        Option::Some(v) => match v {
            Value::S(s) => str_eq(s.as_str(), value),
            _ => false,
        },
        Option::None => false,
    }
}

/// Sends `GET{key}` to the node and demands a matching `GET_RESP` with
/// the expected value. On success such a reply stands in the node's log.
pub fn check_get<N: Node>(
    sys: &mut System<N>,
    node: &str,
    key: &str,
    expected: Option<&String>,
    max_steps: u64,
) -> (r: Result<(), String>)
    requires
        old(sys).wf(),
    ensures
        final(sys).wf(),
        session_frame(*old(sys), *final(sys)),
        r is Ok ==> old(sys).has_id(node@) && ({
            let idx = old(sys).idx_of(node@);
            exists|k: int|
                0 <= k < final(sys).slots()[idx].log.len()
                    && (#[trigger] final(sys).slots()[idx].log[k]).kind == LocalKind::Output
                    && get_resp_ok(
                    final(sys).slots()[idx].log[k].msg,
                    key@,
                    match expected {
                        Option::Some(v) => Option::Some(v@),
                        Option::None => Option::None,
                    },
                )
        }),
{
    let msg = Message::new("GET", Payload::empty().with_str("key", key));
    let res = sys.request_reply(node, msg, max_steps);
    match res {
        Result::Err(e) => Result::Err(e),
        Result::Ok(m) => {
            if judge_get_resp(&m, key, expected) {
                Result::Ok(())
            } else {
                Result::Err(String::from_str("unexpected GET_RESP"))
            }
        },
    }
}

/// Sends `PUT{key,value}` to the node and demands the echoing
/// `PUT_RESP`. On success such a reply stands in the node's log.
pub fn check_put<N: Node>(
    sys: &mut System<N>,
    node: &str,
    key: &str,
    value: &str,
    max_steps: u64,
) -> (r: Result<(), String>)
    requires
        old(sys).wf(),
    ensures
        final(sys).wf(),
        session_frame(*old(sys), *final(sys)),
        r is Ok ==> old(sys).has_id(node@) && ({
            let idx = old(sys).idx_of(node@);
            exists|k: int|
                0 <= k < final(sys).slots()[idx].log.len()
                    && (#[trigger] final(sys).slots()[idx].log[k]).kind == LocalKind::Output
                    && kv_resp_ok(final(sys).slots()[idx].log[k].msg, "PUT_RESP"@, key@, value@)
        }),
{
    let msg = Message::new("PUT", Payload::empty().with_str("key", key).with_str("value", value));
    let res = sys.request_reply(node, msg, max_steps);
    match res {
        Result::Err(e) => Result::Err(e),
        Result::Ok(m) => {
            if judge_kv_resp(&m, "PUT_RESP", key, value) {
                Result::Ok(())
            } else {
                Result::Err(String::from_str("unexpected PUT_RESP"))
            }
        },
    }
}

/// Whether a reply message is a well-formed `DELETE_RESP` for the key
/// carrying the expected previous value (`None` expects a null value).
pub open spec fn delete_resp_ok(m: MessageV, key: Seq<char>, expected: Option<Seq<char>>) -> bool {
    &&& m.tip == "DELETE_RESP"@
    &&& lookup_field(m.fields, "key"@) == Option::Some(ValueV::S(key))
    &&& match expected {
        Option::Some(v) => lookup_field(m.fields, "value"@) == Option::Some(ValueV::S(v)),
        Option::None => lookup_field(m.fields, "value"@) == Option::Some(ValueV::Null),
    }
}

/// Judges a `DELETE_RESP` reply against the key and the expected
/// previous value.
pub fn judge_delete_resp(m: &Message, key: &str, expected: Option<&String>) -> (r: bool)
    ensures
        r == delete_resp_ok(
            m@,
            key@,
            match expected {
                Option::Some(v) => Option::Some(v@),
                Option::None => Option::None,
            },
        ),
{
    if !str_eq(m.tip.as_str(), "DELETE_RESP") {
        return false;
    }
    let key_ok = match m.payload.get("key") {
        Option::Some(v) => match v {
            Value::S(s) => str_eq(s.as_str(), key),
            _ => false,
        },
        Option::None => false,
    };
    if !key_ok {
        return false;
    }
    match m.payload.get("value") {
        Option::Some(v) => match (v, expected) {
            (Value::S(s), Option::Some(e)) => str_eq(s.as_str(), e.as_str()),
            (Value::Null, Option::None) => true,
            _ => false,
        },
        Option::None => false,
    }
}

/// Sends `DELETE{key}` to the node and demands a matching `DELETE_RESP`
/// carrying the expected previous value. On success such a reply stands
/// in the node's log.
pub fn check_delete<N: Node>(
    sys: &mut System<N>,
    node: &str,
    key: &str,
    expected: Option<&String>,
    max_steps: u64,
) -> (r: Result<(), String>)
    requires
        old(sys).wf(),
    ensures
        final(sys).wf(),
        session_frame(*old(sys), *final(sys)),
        r is Ok ==> old(sys).has_id(node@) && ({
            let idx = old(sys).idx_of(node@);
            exists|k: int|
                0 <= k < final(sys).slots()[idx].log.len()
                    && (#[trigger] final(sys).slots()[idx].log[k]).kind == LocalKind::Output
                    && delete_resp_ok(
                    final(sys).slots()[idx].log[k].msg,
                    key@,
                    match expected {
                        Option::Some(v) => Option::Some(v@),
                        Option::None => Option::None,
                    },
                )
        }),
{
    let msg = Message::new("DELETE", Payload::empty().with_str("key", key));
    let res = sys.request_reply(node, msg, max_steps);
    match res {
        Result::Err(e) => Result::Err(e),
        Result::Ok(m) => {
            if judge_delete_resp(&m, key, expected) {
                Result::Ok(())
            } else {
                Result::Err(String::from_str("unexpected DELETE_RESP"))
            }
        },
    }
}

/// Asks the node how many records it stores.
pub fn count_records<N: Node>(sys: &mut System<N>, node: &str, max_steps: u64) -> (r: Result<
    u64,
    String,
>)
    requires
        old(sys).wf(),
    ensures
        final(sys).wf(),
        session_frame(*old(sys), *final(sys)),
        r matches Ok(c) ==> old(sys).has_id(node@) && ({
            let idx = old(sys).idx_of(node@);
            exists|k: int|
                0 <= k < final(sys).slots()[idx].log.len()
                    && (#[trigger] final(sys).slots()[idx].log[k]).kind == LocalKind::Output
                    && final(sys).slots()[idx].log[k].msg.tip == "COUNT_RECORDS_RESP"@
                    && lookup_field(final(sys).slots()[idx].log[k].msg.fields, "count"@)
                    == Option::Some(ValueV::N(c))
        }),
{
    let msg = Message::new("COUNT_RECORDS", Payload::empty());
    let res = sys.request_reply(node, msg, max_steps);
    match res {
        Result::Err(e) => Result::Err(e),
        Result::Ok(m) => {
            if !str_eq(m.tip.as_str(), "COUNT_RECORDS_RESP") {
                return Result::Err(String::from_str("wrong reply type"));
            }
            match m.payload.get("count") {
                Option::Some(v) => match v {
                    Value::N(n) => {
                        let c = *n;
                        proof {
                            let idx = old(sys).idx_of(node@);
                            let k = choose|k: int|
                                0 <= k < sys.slots()[idx].log.len() && (
                                #[trigger] sys.slots()[idx].log[k]).kind == LocalKind::Output
                                    && sys.slots()[idx].log[k].msg == m@;
                            assert(sys.slots()[idx].log[k].msg.tip == "COUNT_RECORDS_RESP"@);
                            assert(lookup_field(sys.slots()[idx].log[k].msg.fields, "count"@)
                                == Option::Some(ValueV::N(c)));
                        }
                        Result::Ok(c)
                    },
                    _ => Result::Err(String::from_str("malformed count")),
                },
                Option::None => Result::Err(String::from_str("missing count")),
            }
        },
    }
}

/// Asks the node for the keys it stores.
pub fn dump_keys<N: Node>(sys: &mut System<N>, node: &str, max_steps: u64) -> (r: Result<
    Vec<String>,
    String,
>)
    requires
        old(sys).wf(),
    ensures
        final(sys).wf(),
        session_frame(*old(sys), *final(sys)),
        r matches Ok(ks) ==> old(sys).has_id(node@) && ({
            let idx = old(sys).idx_of(node@);
            exists|k: int|
                0 <= k < final(sys).slots()[idx].log.len()
                    && (#[trigger] final(sys).slots()[idx].log[k]).kind == LocalKind::Output
                    && final(sys).slots()[idx].log[k].msg.tip == "DUMP_KEYS_RESP"@
                    && lookup_field(final(sys).slots()[idx].log[k].msg.fields, "keys"@)
                    == Option::Some(ValueV::A(views_of(ks@)))
        }),
{
    let msg = Message::new("DUMP_KEYS", Payload::empty());
    let res = sys.request_reply(node, msg, max_steps);
    match res {
        Result::Err(e) => Result::Err(e),
        Result::Ok(m) => {
            if !str_eq(m.tip.as_str(), "DUMP_KEYS_RESP") {
                return Result::Err(String::from_str("wrong reply type"));
            }
            match m.payload.get("keys") {
                Option::Some(v) => match v {
                    Value::A(a) => {
                        let ks = dup_str_vec(a);
                        proof {
                            let idx = old(sys).idx_of(node@);
                            let k = choose|k: int|
                                0 <= k < sys.slots()[idx].log.len() && (
                                #[trigger] sys.slots()[idx].log[k]).kind == LocalKind::Output
                                    && sys.slots()[idx].log[k].msg == m@;
                            assert(sys.slots()[idx].log[k].msg.tip == "DUMP_KEYS_RESP"@);
                            assert(lookup_field(sys.slots()[idx].log[k].msg.fields, "keys"@)
                                == Option::Some(ValueV::A(views_of(ks@))));
                        }
                        Result::Ok(ks)
                    },
                    _ => Result::Err(String::from_str("malformed keys")),
                },
                Option::None => Result::Err(String::from_str("missing keys")),
            }
        },
    }
}

/// Steps the system in bursts until the record counts over the given
/// nodes are stable and sum to the expected total, or the step budget
/// runs out. On success the returned counts sum to the expected total.
pub fn step_until_counts_stable<N: Node>(
    sys: &mut System<N>,
    nodes: &Vec<String>,
    expected_total: u64,
    steps_per_round: u64,
    max_rounds: u64,
) -> (r: Result<Vec<u64>, String>)
    requires
        old(sys).wf(),
    ensures
        final(sys).wf(),
        session_frame(*old(sys), *final(sys)),
        r matches Ok(cs) ==> cs@.len() == nodes@.len() && sum_of(cs@) == expected_total,
{
    let ghost o = *old(sys);
    proof {
        lemma_session_frame_refl(o);
    }
    let mut prev: Vec<u64> = Vec::new();
    let mut have_prev = false;
    let mut round: u64 = 0;
    while round < max_rounds
        invariant
            o == *old(sys),
            sys.wf(),
            session_frame(o, *sys),
            have_prev ==> prev@.len() == nodes@.len(),
        decreases max_rounds - round,
    {
        let ghost pre0 = *sys;
        sys.steps(steps_per_round);
        proof {
            lemma_run_frame_session(pre0, *sys);
            lemma_session_frame_trans(o, pre0, *sys);
        }
        let mut counts: Vec<u64> = Vec::new();
        let mut total: u64 = 0;
        let mut j: usize = 0;
        while j < nodes.len()
            invariant
                o == *old(sys),
                sys.wf(),
                session_frame(o, *sys),
                j <= nodes@.len(),
                counts@.len() == j,
                total == sum_of(counts@),
            decreases nodes@.len() - j,
        {
            let ghost prej = *sys;
            let c = match count_records(sys, nodes[j].as_str(), 1000) {
                Result::Err(e) => {
                    proof {
                        lemma_session_frame_trans(o, prej, *sys);
                    }
                    return Result::Err(e);
                },
                Result::Ok(c) => c,
            };
            proof {
                lemma_session_frame_trans(o, prej, *sys);
            }
            let ghost cpre = counts@;
            counts.push(c);
            total = sat_add64(total, c);
            proof {
                assert(counts@.drop_last() =~= cpre);
                if sum_of(cpre) + c > u64::MAX {
                    assert(sum_of(counts@) == sum_of(cpre) + c);
                }
            }
            if total == u64::MAX {
                return Result::Err(String::from_str("count overflow"));
            }
            j += 1;
        }
        let mut unchanged = have_prev;
        if have_prev {
            let mut k: usize = 0;
            while k < counts.len()
                invariant
                    o == *old(sys),
                    sys.wf(),
                    session_frame(o, *sys),
                    prev@.len() == nodes@.len(),
                    counts@.len() == nodes@.len(),
                    k <= counts@.len(),
                decreases counts@.len() - k,
            {
                if k >= prev.len() || prev[k] != counts[k] {
                    unchanged = false;
                }
                k += 1;
            }
        }
        if unchanged && total == expected_total {
            return Result::Ok(counts);
        }
        prev = counts;
        have_prev = true;
        round += 1;
    }
    Result::Err(String::from_str("keys distribution is not stabilized"))
}

/// The sum of a sequence of counters.
pub open spec fn sum_of(s: Seq<u64>) -> int
    decreases s.len(),
{
    if s.len() == 0 {
        0
    } else {
        sum_of(s.drop_last()) + s.last()
    }
}

/// Which sharding property the stored keys violated.
#[derive(Clone, Copy, PartialEq, Eq, Structural, Debug)]
pub enum ShardViolation {
    /// The union of stored keys differs from the expected keys.
    KeysMismatch,
    /// Some key is stored on two nodes, or twice on one.
    MultipleOwners,
}

/// Each stored key occurrence is unique across all nodes: no key is held
/// twice, on one node or on two.
pub open spec fn single_owner(nks: Seq<Seq<Seq<char>>>) -> bool {
    forall|n: int, i: int, m: int, j: int|
        0 <= n < nks.len() && 0 <= i < nks[n].len() && 0 <= m < nks.len() && 0 <= j < nks[m].len()
            && (n != m || i != j) ==> (#[trigger] nks[n][i]) != (#[trigger] nks[m][j])
}

/// Whether some node stores the key.
pub open spec fn stored_somewhere(nks: Seq<Seq<Seq<char>>>, t: Seq<char>) -> bool {
    exists|n: int, i: int| 0 <= n < nks.len() && 0 <= i < nks[n].len() && (#[trigger] nks[n][i]) == t
}

/// Every stored key is expected and every expected key is stored.
pub open spec fn keys_match(nks: Seq<Seq<Seq<char>>>, expected: Seq<Seq<char>>) -> bool {
    &&& forall|n: int, i: int|
        0 <= n < nks.len() && 0 <= i < nks[n].len() ==> seq_has_text(
            expected,
            (#[trigger] nks[n][i]),
        )
    &&& forall|e: int| 0 <= e < expected.len() ==> stored_somewhere(nks, (#[trigger] expected[e]))
}

/// The views of per-node key vectors.
pub open spec fn keys_views(s: Seq<Vec<String>>) -> Seq<Seq<Seq<char>>> {
    s.map_values(|v: Vec<String>| views_of(v@))
}

/// Checks that the nodes collectively store exactly the expected keys,
/// each key on exactly one node.
pub fn check_storage(node_keys: &Vec<Vec<String>>, expected: &Vec<String>) -> (r: Result<
    (),
    ShardViolation,
>)
    ensures
        r is Ok <==> keys_match(keys_views(node_keys@), views_of(expected@)) && single_owner(
            keys_views(node_keys@),
        ),
{
    let ghost nks = keys_views(node_keys@);
    let ghost ev = views_of(expected@);
    // every stored key is expected, and no occurrence repeats
    let mut n: usize = 0;
    while n < node_keys.len()
        invariant
            nks == keys_views(node_keys@),
            ev == views_of(expected@),
            n <= node_keys@.len(),
            nks.len() == node_keys@.len(),
            ev.len() == expected@.len(),
            forall|n2: int, i: int|
                0 <= n2 < n && 0 <= i < nks[n2].len() ==> seq_has_text(
                    ev,
                    (#[trigger] nks[n2][i]),
                ),
        decreases node_keys@.len() - n,
    {
        proof {
            assert(nks[n as int] == views_of(node_keys@[n as int]@));
        }
        let mut i: usize = 0;
        while i < node_keys[n].len()
            invariant
                nks == keys_views(node_keys@),
                ev == views_of(expected@),
                n < node_keys@.len(),
                nks.len() == node_keys@.len(),
                ev.len() == expected@.len(),
                nks[n as int] == views_of(node_keys@[n as int]@),
                i <= node_keys@[n as int]@.len(),
                nks[n as int].len() == node_keys@[n as int]@.len(),
                forall|i2: int|
                    0 <= i2 < i ==> seq_has_text(ev, (#[trigger] nks[n as int][i2])),
                forall|n2: int, i2: int|
                    0 <= n2 < n && 0 <= i2 < nks[n2].len() ==> seq_has_text(
                        ev,
                        (#[trigger] nks[n2][i2]),
                    ),
            decreases node_keys@[n as int]@.len() - i,
        {
            proof {
                assert(nks[n as int][i as int] == node_keys@[n as int]@[i as int]@);
            }
            if !contains_text(expected, node_keys[n][i].as_str()) {
                proof {
                    assert(!keys_match(nks, ev));
                }
                return Result::Err(ShardViolation::KeysMismatch);
            }
            i += 1;
        }
        n += 1;
    }
    // single ownership: compare every occurrence pair
    if !check_single_owner(node_keys) {
        return Result::Err(ShardViolation::MultipleOwners);
    }
    // every expected key is stored somewhere
    let mut e: usize = 0;
    while e < expected.len()
        invariant
            nks == keys_views(node_keys@),
            ev == views_of(expected@),
            e <= expected@.len(),
            nks.len() == node_keys@.len(),
            ev.len() == expected@.len(),
            single_owner(nks),
            forall|n2: int, i: int|
                0 <= n2 < nks.len() && 0 <= i < nks[n2].len() ==> seq_has_text(
                    ev,
                    (#[trigger] nks[n2][i]),
                ),
            forall|e2: int| 0 <= e2 < e ==> stored_somewhere(nks, (#[trigger] ev[e2])),
        decreases expected@.len() - e,
    {
        proof {
            assert(ev[e as int] == expected@[e as int]@);
        }
        let mut found = false;
        let mut n2: usize = 0;
        while n2 < node_keys.len() && !found
            invariant
                nks == keys_views(node_keys@),
                ev == views_of(expected@),
                e < expected@.len(),
                ev[e as int] == expected@[e as int]@,
                nks.len() == node_keys@.len(),
                n2 <= node_keys@.len(),
                found ==> stored_somewhere(nks, ev[e as int]),
                !found ==> forall|n3: int, i: int|
                    0 <= n3 < n2 && 0 <= i < nks[n3].len() ==> (#[trigger] nks[n3][i]) != ev[e
                        as int],
            decreases node_keys@.len() - n2,
        {
            proof {
                assert(nks[n2 as int] == views_of(node_keys@[n2 as int]@));
            }
            if contains_text(&node_keys[n2], expected[e].as_str()) {
                proof {
                    let i = choose|i: int|
                        0 <= i < views_of(node_keys@[n2 as int]@).len() && (#[trigger] views_of(
                            node_keys@[n2 as int]@,
                        )[i]) == expected@[e as int]@;
                    assert(nks[n2 as int][i] == ev[e as int]);
                    assert(stored_somewhere(nks, ev[e as int]));
                }
                found = true;
            }
            n2 += 1;
        }
        if !found {
            proof {
                assert(!keys_match(nks, ev));
            }
            return Result::Err(ShardViolation::KeysMismatch);
        }
        e += 1;
    }
    Result::Ok(())
}

/// Checks that no key occurrence repeats across the nodes.
fn check_single_owner(node_keys: &Vec<Vec<String>>) -> (r: bool)
    ensures
        r == single_owner(keys_views(node_keys@)),
{
    let ghost nks = keys_views(node_keys@);
    let mut n: usize = 0;
    while n < node_keys.len()
        invariant
            nks == keys_views(node_keys@),
            n <= node_keys@.len(),
            nks.len() == node_keys@.len(),
            forall|n2: int, i: int, m: int, j: int|
                0 <= n2 < n && 0 <= i < nks[n2].len() && 0 <= m < nks.len() && 0 <= j
                    < nks[m].len() && (n2 < m || (n2 == m && i < j)) ==> (#[trigger] nks[n2][i])
                    != (#[trigger] nks[m][j]),
        decreases node_keys@.len() - n,
    {
        proof {
            assert(nks[n as int] == views_of(node_keys@[n as int]@));
        }
        let mut i: usize = 0;
        while i < node_keys[n].len()
            invariant
                nks == keys_views(node_keys@),
                n < node_keys@.len(),
                nks.len() == node_keys@.len(),
                nks[n as int] == views_of(node_keys@[n as int]@),
                node_keys@.len() <= usize::MAX,
                i <= node_keys@[n as int]@.len(),
                nks[n as int].len() == node_keys@[n as int]@.len(),
                forall|n2: int, i2: int, m: int, j: int|
                    0 <= n2 < n && 0 <= i2 < nks[n2].len() && 0 <= m < nks.len() && 0 <= j
                        < nks[m].len() && (n2 < m || (n2 == m && i2 < j)) ==> (
                    #[trigger] nks[n2][i2]) != (#[trigger] nks[m][j]),
                forall|i2: int, m: int, j: int|
                    0 <= i2 < i && 0 <= m < nks.len() && 0 <= j < nks[m].len() && ((n as int) < m
                        || ((n as int) == m && i2 < j)) ==> (#[trigger] nks[n as int][i2]) != (
                    #[trigger] nks[m][j]),
            decreases node_keys@[n as int]@.len() - i,
        {
            proof {
                assert(nks[n as int][i as int] == node_keys@[n as int]@[i as int]@);
            }
            // later occurrences on the same node
            let mut j: usize = i + 1;
            while j < node_keys[n].len()
                invariant
                    nks == keys_views(node_keys@),
                    n < node_keys@.len(),
                    nks.len() == node_keys@.len(),
                    nks[n as int] == views_of(node_keys@[n as int]@),
                    i < j <= node_keys@[n as int]@.len(),
                    i < node_keys@[n as int]@.len(),
                    nks[n as int].len() == node_keys@[n as int]@.len(),
                    nks[n as int][i as int] == node_keys@[n as int]@[i as int]@,
                    forall|j2: int|
                        i < j2 < j ==> (#[trigger] nks[n as int][j2]) != nks[n as int][i as int],
                decreases node_keys@[n as int]@.len() - j,
            {
                proof {
                    assert(nks[n as int][j as int] == node_keys@[n as int]@[j as int]@);
                }
                if str_eq(node_keys[n][i].as_str(), node_keys[n][j].as_str()) {
                    proof {
                        assert(!single_owner(nks));
                    }
                    return false;
                }
                j += 1;
            }
            // occurrences on later nodes
            let mut m: usize = n + 1;
            while m < node_keys.len()
                invariant
                    nks == keys_views(node_keys@),
                    n < m <= node_keys@.len(),
                    n < node_keys@.len(),
                    i < node_keys@[n as int]@.len(),
                    nks.len() == node_keys@.len(),
                    nks[n as int] == views_of(node_keys@[n as int]@),
                    nks[n as int].len() == node_keys@[n as int]@.len(),
                    nks[n as int][i as int] == node_keys@[n as int]@[i as int]@,
                    forall|m2: int, j: int|
                        n < m2 < m && 0 <= j < nks[m2].len() ==> (#[trigger] nks[m2][j]) != nks[n
                            as int][i as int],
                decreases node_keys@.len() - m,
            {
                proof {
                    assert(nks[m as int] == views_of(node_keys@[m as int]@));
                }
                if contains_text(&node_keys[m], node_keys[n][i].as_str()) {
                    proof {
                        let j = choose|j: int|
                            0 <= j < views_of(node_keys@[m as int]@).len() && (#[trigger] views_of(
                                node_keys@[m as int]@,
                            )[j]) == node_keys@[n as int]@[i as int]@;
                        assert(nks[m as int][j] == nks[n as int][i as int]);
                        assert(!single_owner(nks));
                    }
                    return false;
                }
                m += 1;
            }
            i += 1;
        }
        n += 1;
    }
    proof {
        assert forall|n2: int, i: int, m: int, j: int|
            0 <= n2 < nks.len() && 0 <= i < nks[n2].len() && 0 <= m < nks.len() && 0 <= j
                < nks[m].len() && (n2 != m || i != j) implies (#[trigger] nks[n2][i]) != (
        #[trigger] nks[m][j]) by {
            if n2 < m || (n2 == m && i < j) {
            } else {
                assert(m < n2 || (m == n2 && j < i));
            }
        }
    }
    true
}

/// The balanced target per node: the total rounded to the nearest
/// integer share.
pub open spec fn share_target(total: int, n: int) -> int {
    (2 * total + n) / (2 * n)
}

/// Checks that every per-node count deviates from the rounded target by
/// at most a tenth of the target.
pub fn check_distribution(counts: &Vec<u64>, total: u64) -> (r: bool)
    requires
        counts@.len() >= 1,
    ensures
        r == forall|i: int|
            0 <= i < counts@.len() ==> 10 * abs_diff(
                (#[trigger] counts@[i]) as int,
                share_target(total as int, counts@.len() as int),
            ) <= share_target(total as int, counts@.len() as int),
{
    let n = counts.len() as u64;
    let ghost t_spec = share_target(total as int, counts@.len() as int);
    let t = ((2 as u128) * (total as u128) + (n as u128)) / ((2 as u128) * (n as u128));
    proof {
        assert(n == counts@.len());
        assert(t == t_spec);
        assert(t <= 2 * (total as u128) + (n as u128)) by (nonlinear_arith)
            requires
                n >= 1,
                t == ((2 as u128) * (total as u128) + (n as u128)) / ((2 as u128) * (n as u128)),
        ;
        assert(t < 0x4_0000_0000_0000_0000u128);
    }
    let mut i: usize = 0;
    while i < counts.len()
        invariant
            counts@.len() >= 1,
            i <= counts@.len(),
            t == t_spec,
            t < 0x4_0000_0000_0000_0000u128,
            t_spec == share_target(total as int, counts@.len() as int),
            forall|i2: int|
                0 <= i2 < i ==> 10 * abs_diff((#[trigger] counts@[i2]) as int, t_spec) <= t_spec,
        decreases counts@.len() - i,
    {
        let c = counts[i] as u128;
        let d = if c >= t {
            c - t
        } else {
            t - c
        };
        if 10 * d > t {
            proof {
                assert(10 * abs_diff(counts@[i as int] as int, t_spec) > t_spec);
            }
            return false;
        }
        i += 1;
    }
    true
}

/// The absolute difference of two integers.
pub open spec fn abs_diff(a: int, b: int) -> int {
    if a >= b {
        a - b
    } else {
        b - a
    }
}

/// How many keys of `a` also occur in `b`.
pub open spec fn common_count(a: Seq<Seq<char>>, b: Seq<Seq<char>>) -> int
    decreases a.len(),
{
    if a.len() == 0 {
        0
    } else {
        common_count(a.drop_last(), b) + (if seq_has_text(b, a.last()) {
            1int
        } else {
            0int
        })
    }
}

/// Counts the keys of `a` that also occur in `b`.
pub fn count_common(a: &Vec<String>, b: &Vec<String>) -> (r: usize)
    ensures
        r == common_count(views_of(a@), views_of(b@)),
{
    let ghost av = views_of(a@);
    let ghost bv = views_of(b@);
    let mut r: usize = 0;
    let mut i: usize = 0;
    while i < a.len()
        invariant
            av == views_of(a@),
            bv == views_of(b@),
            i <= a@.len(),
            av.len() == a@.len(),
            r <= i,
            r == common_count(av.take(i as int), bv),
        decreases a@.len() - i,
    {
        proof {
            assert(av[i as int] == a@[i as int]@);
            assert(av.take(i + 1 as int).drop_last() =~= av.take(i as int));
            assert(av.take(i + 1 as int).last() == av[i as int]);
        }
        if contains_text(b, a[i].as_str()) {
            r += 1;
        }
        i += 1;
    }
    proof {
        assert(av.take(av.len() as int) =~= av);
    }
    r
}

/// Checks the migration bound after a membership change: the number of
/// keys that moved between nodes must not exceed the theoretical target
/// by more than a tenth. `before` and `after` pair up node by node.
pub fn check_moved_keys(
    before: &Vec<Vec<String>>,
    after: &Vec<Vec<String>>,
    target: u64,
) -> (r: Result<(), String>)
    requires
        before@.len() == after@.len(),
        target >= 1,
    ensures
        r is Ok ==> 10 * (total_keys(keys_views(before@)) - not_moved(
            keys_views(before@),
            keys_views(after@),
        )) <= 11 * target,
        (forall|n: int|
            0 <= n < before@.len() ==> (#[trigger] keys_views(before@)[n]).len() <= 0xffff_ffff
                && common_count(keys_views(after@)[n], keys_views(before@)[n]) <= 0xffff_ffff)
            ==> (r is Ok <==> 10 * (total_keys(keys_views(before@)) - not_moved(
            keys_views(before@),
            keys_views(after@),
        )) <= 11 * target),
{
    let ghost bv = keys_views(before@);
    let ghost av = keys_views(after@);
    let mut total: u128 = 0;
    let mut kept: u128 = 0;
    let mut n: usize = 0;
    while n < before.len()
        invariant
            bv == keys_views(before@),
            av == keys_views(after@),
            before@.len() == after@.len(),
            n <= before@.len(),
            bv.len() == before@.len(),
            av.len() == after@.len(),
            total == total_keys(bv.take(n as int)),
            kept == not_moved(bv.take(n as int), av),
            total <= (n as int) * 0x1_0000_0000,
            kept <= (n as int) * 0x1_0000_0000,
        decreases before@.len() - n,
    {
        proof {
            assert(bv[n as int] == views_of(before@[n as int]@));
            assert(av[n as int] == views_of(after@[n as int]@));
            assert(bv.take(n + 1 as int).drop_last() =~= bv.take(n as int));
            assert(bv.take(n + 1 as int).last() == bv[n as int]);
        }
        let c = count_common(&after[n], &before[n]);
        let b_len = before[n].len();
        if b_len > 0xffff_ffff || c > 0xffff_ffff {
            proof {
                assert(keys_views(before@)[n as int].len() == before@[n as int]@.len());
                assert(keys_views(before@)[n as int].len() > 0xffff_ffff || common_count(
                    keys_views(after@)[n as int],
                    keys_views(before@)[n as int],
                ) > 0xffff_ffff);
            }
            return Result::Err(String::from_str("key population too large"));
        }
        proof {
            assert((n as int) * 0x1_0000_0000 + 0x1_0000_0000 == ((n + 1) as int) * 0x1_0000_0000)
                by (nonlinear_arith);
            assert(((n + 1) as int) * 0x1_0000_0000 <= (before@.len() as int) * 0x1_0000_0000)
                by (nonlinear_arith)
                requires
                    n + 1 <= before@.len(),
            ;
            assert((before@.len() as int) * 0x1_0000_0000 < 0x1_0000_0000_0000_0000_0000_0000)
                by (nonlinear_arith)
                requires
                    before@.len() < 0x1_0000_0000_0000_0000,
            ;
        }
        total = total + b_len as u128;
        kept = kept + c as u128;
        n += 1;
    }
    proof {
        assert(bv.take(bv.len() as int) =~= bv);
    }
    if kept >= total {
        return Result::Ok(());
    }
    let moved = total - kept;
    if moved * 10 <= (target as u128) * 11 {
        Result::Ok(())
    } else {
        Result::Err(String::from_str("too many keys moved"))
    }
}

/// The total number of stored key occurrences.
pub open spec fn total_keys(nks: Seq<Seq<Seq<char>>>) -> int
    decreases nks.len(),
{
    if nks.len() == 0 {
        0
    } else {
        total_keys(nks.drop_last()) + nks.last().len()
    }
}

/// How many key occurrences stayed on their node.
pub open spec fn not_moved(before: Seq<Seq<Seq<char>>>, after: Seq<Seq<Seq<char>>>) -> int
    decreases before.len(),
{
    if before.len() == 0 {
        0
    } else {
        not_moved(before.drop_last(), after) + common_count(
            after[before.len() - 1],
            before.last(),
        )
    }
}

/// A common count never exceeds the counting side's length.
pub proof fn lemma_common_le(a: Seq<Seq<char>>, b: Seq<Seq<char>>)
    ensures
        0 <= common_count(a, b) <= a.len(),
    decreases a.len(),
{
    if a.len() > 0 {
        lemma_common_le(a.drop_last(), b);
    }
}

} // verus!
