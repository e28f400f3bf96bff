//! The membership harness: querying a node for its member list through a
//! local request/response round, and the stabilization loop that drives
//! the system until every node of an expected group reports exactly that
//! group.

use vstd::prelude::*;
use crate::msg::{Message, Value, ValueV, Payload, lookup_field, dup_str_vec};
use crate::node::{Node, LocalEventV, LocalKind};
use crate::strutil::{str_eq, views_of, same_texts, same_text_sets, sat_add64};
use crate::system::{System, session_frame, lemma_session_frame_refl, lemma_session_frame_trans, lemma_run_frame_session};

verus! {

/// Whether a log entry is a local `MEMBERS` output listing exactly the
/// given group (as a set of ids).
pub open spec fn is_members_listing(e: LocalEventV, group: Seq<Seq<char>>) -> bool {
    &&& e.kind == LocalKind::Output
    &&& e.msg.tip == "MEMBERS"@
    &&& match lookup_field(e.msg.fields, "members"@) {
        Option::Some(v) => match v {
            ValueV::A(ms) => same_texts(ms, group),
            _ => false,
        },
        Option::None => false,
    }
}

/// Whether the log holds a `MEMBERS` output listing exactly the group.
pub open spec fn members_output_in(log: Seq<LocalEventV>, group: Seq<Seq<char>>) -> bool {
    exists|k: int| 0 <= k < log.len() && is_members_listing(#[trigger] log[k], group)
}

/// A members listing survives any extension of the log.
pub proof fn lemma_members_persist(a: Seq<LocalEventV>, b: Seq<LocalEventV>, g: Seq<Seq<char>>)
    requires
        members_output_in(a, g),
        a.is_prefix_of(b),
    ensures
        members_output_in(b, g),
{
    let k = choose|k: int| 0 <= k < a.len() && is_members_listing(#[trigger] a[k], g);
    assert(a =~= b.take(a.len() as int));
    assert(b[k] == a[k]);
    assert(is_members_listing(b[k], g));
}

/// Sends `GET_MEMBERS` to the node and waits for its `MEMBERS` reply,
/// bounded by a step budget. On success the returned ids are the reply's
/// member list, and the node's log holds the corresponding output.
pub fn query_members<N: Node>(sys: &mut System<N>, node: &str, max_steps: u64) -> (r: Result<
    Vec<String>,
    String,
>)
    requires
        old(sys).wf(),
    ensures
        final(sys).wf(),
        session_frame(*old(sys), *final(sys)),
        r matches Ok(ms) ==> old(sys).has_id(node@) && ({
            let idx = old(sys).idx_of(node@);
            exists|k: int|
                0 <= k < final(sys).slots()[idx].log.len()
                    && (#[trigger] final(sys).slots()[idx].log[k]).kind == LocalKind::Output
                    && final(sys).slots()[idx].log[k].msg.tip == "MEMBERS"@ && lookup_field(
                    final(sys).slots()[idx].log[k].msg.fields,
                    "members"@,
                ) == Option::Some(ValueV::A(views_of(ms@)))
        }),
{
    let msg = Message::new("GET_MEMBERS", Payload::empty());
    let m = match sys.request_reply(node, msg, max_steps) {
        Result::Err(e) => {
            return Result::Err(e);
        },
        Result::Ok(m) => m,
    };
    if !str_eq(m.tip.as_str(), "MEMBERS") {
        return Result::Err(String::from_str("wrong reply type"));
    }
    let arr = match m.payload.get("members") {
        Option::Some(val) => match val {
            Value::A(a) => dup_str_vec(a),
            _ => {
                return Result::Err(String::from_str("malformed members"));
            },
        },
        Option::None => {
            return Result::Err(String::from_str("missing members"));
        },
    };
    proof {
        let idx = old(sys).idx_of(node@);
        let k = choose|k: int|
            0 <= k < sys.slots()[idx].log.len() && (#[trigger] sys.slots()[idx].log[k]).kind
                == LocalKind::Output && sys.slots()[idx].log[k].msg == m@;
        assert(sys.slots()[idx].log[k].msg.tip == "MEMBERS"@);
        assert(lookup_field(sys.slots()[idx].log[k].msg.fields, "members"@) == Option::Some(
            ValueV::A(views_of(arr@)),
        ));
    }
    Result::Ok(arr)
}

/// Drives the system, round by round, until every node of the group
/// reports a member list equal to the group, or the time budget runs
/// out. Each round advances the clock by `round_step`, then queries
/// every group member, each query bounded by a step budget; a missing or
/// malformed reply fails the run at once, a mismatching list starts
/// another round. On success, every group node's log holds a `MEMBERS`
/// output listing exactly the group.
pub fn step_until_stabilized<N: Node>(
    sys: &mut System<N>,
    group: &Vec<String>,
    total_time: u64,
    round_step: u64,
    reply_steps: u64,
) -> (r: Result<(), String>)
    requires
        old(sys).wf(),
    ensures
        final(sys).wf(),
        session_frame(*old(sys), *final(sys)),
        r is Ok ==> forall|j: int|
            0 <= j < group@.len() ==> final(sys).has_id((#[trigger] group@[j])@)
                && members_output_in(
                final(sys).slots()[final(sys).idx_of(group@[j]@)].log,
                views_of(group@),
            ),
{
    let ghost o = *old(sys);
    proof {
        lemma_session_frame_refl(o);
    }
    let deadline = sat_add64(sys.time(), total_time);
    let mut fuel: u64 = u64::MAX;
    loop
        invariant
            o == *old(sys),
            sys.wf(),
            session_frame(o, *sys),
        decreases fuel,
    {
        if fuel == 0 {
            return Result::Err(String::from_str("stabilization budget exhausted"));
        }
        fuel -= 1;
        let ghost pre0 = *sys;
        sys.step_for_duration(round_step);
        proof {
            lemma_run_frame_session(pre0, *sys);
            lemma_session_frame_trans(o, pre0, *sys);
        }
        let mut all_ok = true;
        let mut j: usize = 0;
        while j < group.len()
            invariant
                o == *old(sys),
                sys.wf(),
                session_frame(o, *sys),
                j <= group@.len(),
                all_ok ==> forall|j2: int|
                    0 <= j2 < j ==> sys.has_id((#[trigger] group@[j2])@) && members_output_in(
                        sys.slots()[sys.idx_of(group@[j2]@)].log,
                        views_of(group@),
                    ),
            decreases group@.len() - j,
        {
            let ghost prej = *sys;
            let res = query_members(sys, group[j].as_str(), reply_steps);
            proof {
                lemma_session_frame_trans(o, prej, *sys);
            }
            match res {
                Result::Err(_) => {
                    return Result::Err(String::from_str("members list not returned"));
                },
                Result::Ok(ms) => {
                    let listed = same_text_sets(&ms, group);
                    proof {
                        if all_ok && listed {
                            let idxp = prej.idx_of(group@[j as int]@);
                            assert(prej.has_id(group@[j as int]@));
                            assert(sys.has_id(group@[j as int]@)) by {
                                assert(sys.slots()[idxp].id == prej.slots()[idxp].id);
                                crate::system::lemma_idx_of(*sys, idxp);
                            }
                            assert(sys.idx_of(group@[j as int]@) == idxp) by {
                                assert(sys.slots()[idxp].id == prej.slots()[idxp].id);
                                crate::system::lemma_idx_of(*sys, idxp);
                            }
                            let k = choose|k: int|
                                0 <= k < sys.slots()[idxp].log.len() && #[trigger] sys.slots()[idxp].log[k].kind
                                    == LocalKind::Output && sys.slots()[idxp].log[k].msg.tip
                                    == "MEMBERS"@ && lookup_field(
                                    sys.slots()[idxp].log[k].msg.fields,
                                    "members"@,
                                ) == Option::Some(ValueV::A(views_of(ms@)));
                            assert(is_members_listing(sys.slots()[idxp].log[k], views_of(group@)));
                            assert(members_output_in(
                                sys.slots()[idxp].log,
                                views_of(group@),
                            ));
                        }
                    }
                    if !listed {
                        all_ok = false;
                    }
                    proof {
                        if all_ok {
                            assert forall|j2: int| 0 <= j2 < j + 1 implies sys.has_id(
                                (#[trigger] group@[j2])@,
                            ) && members_output_in(
                                sys.slots()[sys.idx_of(group@[j2]@)].log,
                                views_of(group@),
                            ) by {
                                if j2 < j {
                                    assert(prej.has_id(group@[j2]@) && members_output_in(
                                        prej.slots()[prej.idx_of(group@[j2]@)].log,
                                        views_of(group@),
                                    ));
                                    let idx2 = prej.idx_of(group@[j2]@);
                                    assert(sys.slots()[idx2].id == prej.slots()[idx2].id);
                                    crate::system::lemma_idx_of(*sys, idx2);
                                    assert(sys.has_id(group@[j2]@));
                                    assert(sys.idx_of(group@[j2]@) == idx2);
                                    lemma_members_persist(
                                        prej.slots()[idx2].log,
                                        sys.slots()[idx2].log,
                                        views_of(group@),
                                    );
                                }
                            }
                        }
                    }
                },
            }
            j += 1;
        }
        if all_ok {
            return Result::Ok(());
        }
        if sys.time() >= deadline {
            return Result::Err(String::from_str("group members lists are not stabilized"));
        }
    }
}

} // verus!
