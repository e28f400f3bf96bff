//! The broadcast harness: per-node observations extracted from the local
//! event logs, and the five broadcast correctness predicates evaluated
//! over them — no duplication, no creation, validity, uniform agreement
//! and causal order.

use vstd::prelude::*;
use crate::msg::{MessageV, ValueV, lookup_field};
use crate::node::{Node, LocalEvent, LocalEventV, LocalKind, log_views};
use crate::strutil::{str_eq, views_of};
use crate::system::System;

verus! {

/// Whether a message carries a string field named `text`.
pub open spec fn has_text(m: MessageV) -> bool {
    match lookup_field(m.fields, "text"@) {
        Option::Some(v) => v is S,
        Option::None => false,
    }
}

/// The `text` field of a message (the empty sequence when absent).
pub open spec fn the_text(m: MessageV) -> Seq<char> {
    match lookup_field(m.fields, "text"@) {
        Option::Some(v) => match v {
            ValueV::S(s) => s,
            _ => Seq::empty(),
        },
        Option::None => Seq::empty(),
    }
}

/// The texts of the log entries of the given kind, in log order.
pub open spec fn texts_of_kind(s: Seq<LocalEventV>, k: LocalKind) -> Seq<Seq<char>>
    decreases s.len(),
{
    if s.len() == 0 {
        Seq::empty()
    } else {
        let rest = texts_of_kind(s.drop_last(), k);
        if s.last().kind == k && has_text(s.last().msg) {
            rest.push(the_text(s.last().msg))
        } else {
            rest
        }
    }
}

/// The texts of all log entries, in log order.
pub open spec fn texts_any(s: Seq<LocalEventV>) -> Seq<Seq<char>>
    decreases s.len(),
{
    if s.len() == 0 {
        Seq::empty()
    } else {
        let rest = texts_any(s.drop_last());
        if has_text(s.last().msg) {
            rest.push(the_text(s.last().msg))
        } else {
            rest
        }
    }
}

/// What one node observed in a broadcast run: its identity, whether it
/// crashed, the texts it was asked to send, the texts it delivered, and
/// its full history in log order.
pub struct NodeObs {
    pub id: String,
    pub crashed: bool,
    pub sent: Vec<String>,
    pub delivered: Vec<String>,
    pub history: Vec<String>,
}

/// Spec-level shape of one node's observations.
pub struct ObsV {
    pub id: Seq<char>,
    pub crashed: bool,
    pub sent: Seq<Seq<char>>,
    pub delivered: Seq<Seq<char>>,
    pub history: Seq<Seq<char>>,
}

impl View for NodeObs {
    type V = ObsV;

    open spec fn view(&self) -> ObsV {
        ObsV {
            id: self.id@,
            crashed: self.crashed,
            sent: views_of(self.sent@),
            delivered: views_of(self.delivered@),
            history: views_of(self.history@),
        }
    }
}

/// The views of a vector of observations.
pub open spec fn obs_views(s: Seq<NodeObs>) -> Seq<ObsV> {
    s.map_values(|o: NodeObs| o@)
}

/// Whether some node was asked to send the text.
pub open spec fn somebody_sent(obs: Seq<ObsV>, t: Seq<char>) -> bool {
    exists|m: int, i: int|
        0 <= m < obs.len() && 0 <= i < obs[m].sent.len() && (#[trigger] obs[m].sent[i]) == t
}

/// Whether some node delivered the text.
pub open spec fn somebody_delivered(obs: Seq<ObsV>, t: Seq<char>) -> bool {
    exists|m: int, i: int|
        0 <= m < obs.len() && 0 <= i < obs[m].delivered.len() && (#[trigger] obs[m].delivered[i])
            == t
}

/// Whether the sequence holds the text.
pub open spec fn seq_has(s: Seq<Seq<char>>, t: Seq<char>) -> bool {
    exists|i: int| 0 <= i < s.len() && (#[trigger] s[i]) == t
}

/// No duplication: no correct or faulty node delivers the same text
/// twice.
pub open spec fn no_duplication(obs: Seq<ObsV>) -> bool {
    forall|n: int, i: int, j: int|
        0 <= n < obs.len() && 0 <= i < j < obs[n].delivered.len() ==> (
        #[trigger] obs[n].delivered[i]) != (#[trigger] obs[n].delivered[j])
}

/// No creation: every delivered text was sent by somebody.
pub open spec fn no_creation(obs: Seq<ObsV>) -> bool {
    forall|n: int, i: int|
        0 <= n < obs.len() && 0 <= i < obs[n].delivered.len() ==> somebody_sent(
            obs,
            (#[trigger] obs[n].delivered[i]),
        )
}

/// Validity: a correct node delivers every text it was asked to send.
pub open spec fn validity(obs: Seq<ObsV>) -> bool {
    forall|n: int, i: int|
        0 <= n < obs.len() && !obs[n].crashed && 0 <= i < obs[n].sent.len() ==> seq_has(
            obs[n].delivered,
            (#[trigger] obs[n].sent[i]),
        )
}

/// Uniform agreement: a text delivered by any node (correct or not) is
/// delivered by every correct node.
pub open spec fn uniform_agreement(obs: Seq<ObsV>) -> bool {
    forall|n: int, i: int, m: int|
        0 <= n < obs.len() && 0 <= i < obs[n].delivered.len() && 0 <= m < obs.len() && !(
        #[trigger] obs[m]).crashed ==> seq_has(obs[m].delivered, (#[trigger] obs[n].delivered[i]))
}

/// The first index of text `t` in `s`, or the length when absent.
pub open spec fn find_text(s: Seq<Seq<char>>, from: int, t: Seq<char>) -> int
    decreases s.len() - from,
    when 0 <= from <= s.len()
{
    if from >= s.len() {
        s.len() as int
    } else if s[from] == t {
        from
    } else {
        find_text(s, from + 1, t)
    }
}

/// Basic shape of `find_text`.
pub proof fn lemma_find_text(s: Seq<Seq<char>>, from: int, t: Seq<char>)
    requires
        0 <= from <= s.len(),
    ensures
        from <= find_text(s, from, t) <= s.len(),
        find_text(s, from, t) < s.len() ==> s[find_text(s, from, t)] == t,
        forall|m: int| from <= m < find_text(s, from, t) ==> (#[trigger] s[m]) != t,
    decreases s.len() - from,
{
    if from < s.len() && s[from] != t {
        lemma_find_text(s, from + 1, t);
    }
}

/// Whether `x` appears in `s` strictly before the first occurrence of `t`
/// (before the end when `t` is absent): the causal past of `t` in `s`.
pub open spec fn in_past(s: Seq<Seq<char>>, t: Seq<char>, x: Seq<char>) -> bool {
    exists|k: int| 0 <= k < find_text(s, 0, t) && (#[trigger] s[k]) == x
}

/// Causal order: when a sent text was delivered anywhere, everything in
/// the sender's history before the send is in every correct node's
/// delivery sequence before that text.
pub open spec fn causal_order(obs: Seq<ObsV>) -> bool {
    forall|src: int, i: int, dst: int, x: Seq<char>|
        0 <= src < obs.len() && 0 <= i < obs[src].sent.len() && 0 <= dst < obs.len() && !(
        #[trigger] obs[dst]).crashed && somebody_delivered(obs, obs[src].sent[i])
            && #[trigger] in_past(obs[src].history, (#[trigger] obs[src].sent[i]), x) ==> in_past(
            obs[dst].delivered,
            obs[src].sent[i],
            x,
        )
}

/// Which broadcast property a run violated.
#[derive(Clone, Copy, PartialEq, Eq, Structural, Debug)]
pub enum BroadcastViolation {
    Duplication,
    Creation,
    Validity,
    Agreement,
    CausalOrder,
}

/// The verdict of the broadcast check, in the order the properties are
/// tried.
pub open spec fn check_broadcast_spec(obs: Seq<ObsV>) -> Result<(), BroadcastViolation> {
    if !no_duplication(obs) {
        Result::Err(BroadcastViolation::Duplication)
    } else if !no_creation(obs) {
        Result::Err(BroadcastViolation::Creation)
    } else if !validity(obs) {
        Result::Err(BroadcastViolation::Validity)
    } else if !uniform_agreement(obs) {
        Result::Err(BroadcastViolation::Agreement)
    } else if !causal_order(obs) {
        Result::Err(BroadcastViolation::CausalOrder)
    } else {
        Result::Ok(())
    }
}

/// Whether the string vector holds the text.
fn has_text_in(v: &Vec<String>, t: &str) -> (r: bool)
    ensures
        r == seq_has(views_of(v@), t@),
{
    let mut i: usize = 0;
    while i < v.len()
        invariant
            i <= v@.len(),
            views_of(v@).len() == v@.len(),
            forall|j: int| 0 <= j < i ==> (#[trigger] views_of(v@)[j]) != t@,
        decreases v@.len() - i,
    {
        proof {
            assert(views_of(v@)[i as int] == v@[i as int]@);
        }
        if str_eq(v[i].as_str(), t) {
            return true;
        }
        i += 1;
    }
    false
}

/// Whether some node was asked to send the text.
fn sent_anywhere(obs: &Vec<NodeObs>, t: &str) -> (r: bool)
    ensures
        r == somebody_sent(obs_views(obs@), t@),
{
    let ghost ov = obs_views(obs@);
    let mut m: usize = 0;
    while m < obs.len()
        invariant
            ov == obs_views(obs@),
            m <= obs@.len(),
            ov.len() == obs@.len(),
            forall|m2: int, i: int|
                0 <= m2 < m && 0 <= i < ov[m2].sent.len() ==> (#[trigger] ov[m2].sent[i]) != t@,
        decreases obs@.len() - m,
    {
        proof {
            assert(ov[m as int] == obs@[m as int]@);
        }
        if has_text_in(&obs[m].sent, t) {
            proof {
                let i = choose|i: int|
                    0 <= i < views_of(obs@[m as int].sent@).len() && (#[trigger] views_of(
                        obs@[m as int].sent@,
                    )[i]) == t@;
                assert(ov[m as int].sent[i] == t@);
            }
            return true;
        }
        m += 1;
    }
    proof {
        if somebody_sent(ov, t@) {
            let (m2, i) = choose|m2: int, i: int|
                0 <= m2 < ov.len() && 0 <= i < ov[m2].sent.len() && (#[trigger] ov[m2].sent[i])
                    == t@;
            assert(false);
        }
    }
    false
}

/// Whether some node delivered the text.
fn delivered_anywhere(obs: &Vec<NodeObs>, t: &str) -> (r: bool)
    ensures
        r == somebody_delivered(obs_views(obs@), t@),
{
    let ghost ov = obs_views(obs@);
    let mut m: usize = 0;
    while m < obs.len()
        invariant
            ov == obs_views(obs@),
            m <= obs@.len(),
            ov.len() == obs@.len(),
            forall|m2: int, i: int|
                0 <= m2 < m && 0 <= i < ov[m2].delivered.len() ==> (#[trigger] ov[m2].delivered[i])
                    != t@,
        decreases obs@.len() - m,
    {
        proof {
            assert(ov[m as int] == obs@[m as int]@);
        }
        if has_text_in(&obs[m].delivered, t) {
            proof {
                let i = choose|i: int|
                    0 <= i < views_of(obs@[m as int].delivered@).len() && (#[trigger] views_of(
                        obs@[m as int].delivered@,
                    )[i]) == t@;
                assert(ov[m as int].delivered[i] == t@);
            }
            return true;
        }
        m += 1;
    }
    proof {
        if somebody_delivered(ov, t@) {
            let (m2, i) = choose|m2: int, i: int|
                0 <= m2 < ov.len() && 0 <= i < ov[m2].delivered.len() && (
                #[trigger] ov[m2].delivered[i]) == t@;
            assert(false);
        }
    }
    false
}

/// Checks that no node delivered a text twice.
fn check_no_duplication(obs: &Vec<NodeObs>) -> (r: bool)
    ensures
        r == no_duplication(obs_views(obs@)),
{
    let ghost ov = obs_views(obs@);
    let mut n: usize = 0;
    while n < obs.len()
        invariant
            ov == obs_views(obs@),
            n <= obs@.len(),
            ov.len() == obs@.len(),
            forall|n2: int, i: int, j: int|
                0 <= n2 < n && 0 <= i < j < ov[n2].delivered.len() ==> (
                #[trigger] ov[n2].delivered[i]) != (#[trigger] ov[n2].delivered[j]),
        decreases obs@.len() - n,
    {
        proof {
            assert(ov[n as int] == obs@[n as int]@);
        }
        let d = &obs[n].delivered;
        let mut i: usize = 0;
        while i < d.len()
            invariant
                ov == obs_views(obs@),
                n < obs@.len(),
                ov.len() == obs@.len(),
                ov[n as int] == obs@[n as int]@,
                d == &obs@[n as int].delivered,
                i <= d@.len(),
                ov[n as int].delivered.len() == d@.len(),
                forall|i2: int, j: int|
                    0 <= i2 < j < d@.len() && i2 < i ==> (#[trigger] ov[n as int].delivered[i2])
                        != (#[trigger] ov[n as int].delivered[j]),
            decreases d@.len() - i,
        {
            let mut j: usize = i + 1;
            while j < d.len()
                invariant
                    ov == obs_views(obs@),
                    n < obs@.len(),
                    ov.len() == obs@.len(),
                    ov[n as int] == obs@[n as int]@,
                    d == &obs@[n as int].delivered,
                    i < j <= d@.len(),
                    i < d@.len(),
                    ov[n as int].delivered.len() == d@.len(),
                    forall|j2: int|
                        i < j2 < j ==> (#[trigger] ov[n as int].delivered[j2]) != ov[n
                            as int].delivered[i as int],
                decreases d@.len() - j,
            {
                proof {
                    assert(ov[n as int].delivered[i as int] == d@[i as int]@);
                    assert(ov[n as int].delivered[j as int] == d@[j as int]@);
                }
                if str_eq(d[i].as_str(), d[j].as_str()) {
                    proof {
                        assert(ov[n as int].delivered[i as int] == ov[n as int].delivered[j as int]);
                        assert(!no_duplication(ov));
                    }
                    return false;
                }
                j += 1;
            }
            i += 1;
        }
        n += 1;
    }
    true
}

/// Checks that every delivered text was sent by somebody.
fn check_no_creation(obs: &Vec<NodeObs>) -> (r: bool)
    ensures
        r == no_creation(obs_views(obs@)),
{
    let ghost ov = obs_views(obs@);
    let mut n: usize = 0;
    while n < obs.len()
        invariant
            ov == obs_views(obs@),
            n <= obs@.len(),
            ov.len() == obs@.len(),
            forall|n2: int, i: int|
                0 <= n2 < n && 0 <= i < ov[n2].delivered.len() ==> somebody_sent(
                    ov,
                    (#[trigger] ov[n2].delivered[i]),
                ),
        decreases obs@.len() - n,
    {
        proof {
            assert(ov[n as int] == obs@[n as int]@);
        }
        let mut i: usize = 0;
        while i < obs[n].delivered.len()
            invariant
                ov == obs_views(obs@),
                n < obs@.len(),
                ov.len() == obs@.len(),
                ov[n as int] == obs@[n as int]@,
                i <= obs@[n as int].delivered@.len(),
                ov[n as int].delivered.len() == obs@[n as int].delivered@.len(),
                forall|i2: int|
                    0 <= i2 < i ==> somebody_sent(ov, (#[trigger] ov[n as int].delivered[i2])),
            decreases obs@[n as int].delivered@.len() - i,
        {
            proof {
                assert(ov[n as int].delivered[i as int] == obs@[n as int].delivered@[i as int]@);
            }
            if !sent_anywhere(obs, obs[n].delivered[i].as_str()) {
                proof {
                    assert(!somebody_sent(ov, ov[n as int].delivered[i as int]));
                    assert(!no_creation(ov));
                }
                return false;
            }
            i += 1;
        }
        n += 1;
    }
    true
}

/// Checks that every correct node delivered its own sent texts.
fn check_validity(obs: &Vec<NodeObs>) -> (r: bool)
    ensures
        r == validity(obs_views(obs@)),
{
    let ghost ov = obs_views(obs@);
    let mut n: usize = 0;
    while n < obs.len()
        invariant
            ov == obs_views(obs@),
            n <= obs@.len(),
            ov.len() == obs@.len(),
            forall|n2: int, i: int|
                0 <= n2 < n && !ov[n2].crashed && 0 <= i < ov[n2].sent.len() ==> seq_has(
                    ov[n2].delivered,
                    (#[trigger] ov[n2].sent[i]),
                ),
        decreases obs@.len() - n,
    {
        proof {
            assert(ov[n as int] == obs@[n as int]@);
        }
        if !obs[n].crashed {
            let mut i: usize = 0;
            while i < obs[n].sent.len()
                invariant
                    ov == obs_views(obs@),
                    n < obs@.len(),
                    ov.len() == obs@.len(),
                    ov[n as int] == obs@[n as int]@,
                    i <= obs@[n as int].sent@.len(),
                    ov[n as int].sent.len() == obs@[n as int].sent@.len(),
                    !ov[n as int].crashed,
                    forall|i2: int|
                        0 <= i2 < i ==> seq_has(
                            ov[n as int].delivered,
                            (#[trigger] ov[n as int].sent[i2]),
                        ),
                decreases obs@[n as int].sent@.len() - i,
            {
                proof {
                    assert(ov[n as int].sent[i as int] == obs@[n as int].sent@[i as int]@);
                }
                if !has_text_in(&obs[n].delivered, obs[n].sent[i].as_str()) {
                    proof {
                        assert(!seq_has(ov[n as int].delivered, ov[n as int].sent[i as int]));
                        assert(!ov[n as int].crashed);
                        assert(!validity(ov));
                    }
                    return false;
                }
                i += 1;
            }
        }
        n += 1;
    }
    true
}

/// Checks that every text delivered anywhere was delivered by every
/// correct node.
fn check_uniform_agreement(obs: &Vec<NodeObs>) -> (r: bool)
    ensures
        r == uniform_agreement(obs_views(obs@)),
{
    let ghost ov = obs_views(obs@);
    let mut n: usize = 0;
    while n < obs.len()
        invariant
            ov == obs_views(obs@),
            n <= obs@.len(),
            ov.len() == obs@.len(),
            forall|n2: int, i: int, m: int|
                0 <= n2 < n && 0 <= i < ov[n2].delivered.len() && 0 <= m < ov.len() && !(
                #[trigger] ov[m]).crashed ==> seq_has(
                    ov[m].delivered,
                    (#[trigger] ov[n2].delivered[i]),
                ),
        decreases obs@.len() - n,
    {
        proof {
            assert(ov[n as int] == obs@[n as int]@);
        }
        let mut i: usize = 0;
        while i < obs[n].delivered.len()
            invariant
                ov == obs_views(obs@),
                n < obs@.len(),
                ov.len() == obs@.len(),
                ov[n as int] == obs@[n as int]@,
                i <= obs@[n as int].delivered@.len(),
                ov[n as int].delivered.len() == obs@[n as int].delivered@.len(),
                forall|i2: int, m: int|
                    0 <= i2 < i && 0 <= m < ov.len() && !(#[trigger] ov[m]).crashed ==> seq_has(
                        ov[m].delivered,
                        (#[trigger] ov[n as int].delivered[i2]),
                    ),
            decreases obs@[n as int].delivered@.len() - i,
        {
            proof {
                assert(ov[n as int].delivered[i as int] == obs@[n as int].delivered@[i as int]@);
            }
            let mut m: usize = 0;
            while m < obs.len()
                invariant
                    ov == obs_views(obs@),
                    n < obs@.len(),
                    i < obs@[n as int].delivered@.len(),
                    ov.len() == obs@.len(),
                    ov[n as int] == obs@[n as int]@,
                    ov[n as int].delivered.len() == obs@[n as int].delivered@.len(),
                    ov[n as int].delivered[i as int] == obs@[n as int].delivered@[i as int]@,
                    m <= obs@.len(),
                    forall|m2: int|
                        0 <= m2 < m && !ov[m2].crashed ==> seq_has(
                            (#[trigger] ov[m2]).delivered,
                            ov[n as int].delivered[i as int],
                        ),
                decreases obs@.len() - m,
            {
                proof {
                    assert(ov[m as int] == obs@[m as int]@);
                }
                if !obs[m].crashed {
                    if !has_text_in(&obs[m].delivered, obs[n].delivered[i].as_str()) {
                        proof {
                            assert(!seq_has(
                                ov[m as int].delivered,
                                ov[n as int].delivered[i as int],
                            ));
                            assert(!ov[m as int].crashed);
                            assert(!uniform_agreement(ov));
                        }
                        return false;
                    }
                }
                m += 1;
            }
            i += 1;
        }
        n += 1;
    }
    true
}

/// The index of the first occurrence of `t` in `v`, or the length.
fn cut_index(v: &Vec<String>, t: &str) -> (c: usize)
    ensures
        c == find_text(views_of(v@), 0, t@),
{
    let ghost vv = views_of(v@);
    let mut i: usize = 0;
    while i < v.len()
        invariant
            vv == views_of(v@),
            i <= v@.len(),
            vv.len() == v@.len(),
            find_text(vv, 0, t@) == find_text(vv, i as int, t@),
            forall|j: int| 0 <= j < i ==> (#[trigger] vv[j]) != t@,
        decreases v@.len() - i,
    {
        proof {
            assert(vv[i as int] == v@[i as int]@);
        }
        if str_eq(v[i].as_str(), t) {
            return i;
        }
        i += 1;
    }
    v.len()
}

/// Checks that `x` appears before the first occurrence of `t` in `v`.
fn check_in_past(v: &Vec<String>, t: &str, x: &str) -> (r: bool)
    ensures
        r == in_past(views_of(v@), t@, x@),
{
    let ghost vv = views_of(v@);
    let cut = cut_index(v, t);
    proof {
        lemma_find_text(vv, 0, t@);
    }
    let mut k: usize = 0;
    while k < cut
        invariant
            vv == views_of(v@),
            cut == find_text(vv, 0, t@),
            cut <= v@.len(),
            vv.len() == v@.len(),
            k <= cut,
            forall|k2: int| 0 <= k2 < k ==> (#[trigger] vv[k2]) != x@,
        decreases cut - k,
    {
        proof {
            assert(vv[k as int] == v@[k as int]@);
        }
        if str_eq(v[k].as_str(), x) {
            return true;
        }
        k += 1;
    }
    false
}

/// Checks causal order across all senders and correct destinations.
fn check_causal_order(obs: &Vec<NodeObs>) -> (r: bool)
    ensures
        r == causal_order(obs_views(obs@)),
{
    let ghost ov = obs_views(obs@);
    let mut src: usize = 0;
    while src < obs.len()
        invariant
            ov == obs_views(obs@),
            src <= obs@.len(),
            ov.len() == obs@.len(),
            forall|s2: int, i: int, dst: int, x: Seq<char>|
                0 <= s2 < src && 0 <= i < ov[s2].sent.len() && 0 <= dst < ov.len() && !(
                #[trigger] ov[dst]).crashed && somebody_delivered(ov, ov[s2].sent[i])
                    && #[trigger] in_past(ov[s2].history, (#[trigger] ov[s2].sent[i]), x)
                    ==> in_past(ov[dst].delivered, ov[s2].sent[i], x),
        decreases obs@.len() - src,
    {
        proof {
            assert(ov[src as int] == obs@[src as int]@);
        }
        let mut i: usize = 0;
        while i < obs[src].sent.len()
            invariant
                ov == obs_views(obs@),
                src < obs@.len(),
                ov.len() == obs@.len(),
                ov[src as int] == obs@[src as int]@,
                i <= obs@[src as int].sent@.len(),
                ov[src as int].sent.len() == obs@[src as int].sent@.len(),
                forall|i2: int, dst: int, x: Seq<char>|
                    0 <= i2 < i && 0 <= dst < ov.len() && !(#[trigger] ov[dst]).crashed
                        && somebody_delivered(ov, ov[src as int].sent[i2]) && #[trigger] in_past(
                        ov[src as int].history,
                        (#[trigger] ov[src as int].sent[i2]),
                        x,
                    ) ==> in_past(ov[dst].delivered, ov[src as int].sent[i2], x),
            decreases obs@[src as int].sent@.len() - i,
        {
            proof {
                assert(ov[src as int].sent[i as int] == obs@[src as int].sent@[i as int]@);
            }
            if delivered_anywhere(obs, obs[src].sent[i].as_str()) {
                let ghost t = ov[src as int].sent[i as int];
                let cut = cut_index(&obs[src].history, obs[src].sent[i].as_str());
                proof {
                    lemma_find_text(ov[src as int].history, 0, t);
                }
                let mut dst: usize = 0;
                while dst < obs.len()
                    invariant
                        ov == obs_views(obs@),
                        src < obs@.len(),
                        i < obs@[src as int].sent@.len(),
                        ov.len() == obs@.len(),
                        ov[src as int] == obs@[src as int]@,
                        ov[src as int].sent.len() == obs@[src as int].sent@.len(),
                        t == ov[src as int].sent[i as int],
                        t == obs@[src as int].sent@[i as int]@,
                        cut == find_text(ov[src as int].history, 0, t),
                        cut <= ov[src as int].history.len(),
                        ov[src as int].history.len() == obs@[src as int].history@.len(),
                        somebody_delivered(ov, t),
                        dst <= obs@.len(),
                        forall|d2: int, x: Seq<char>|
                            0 <= d2 < dst && !ov[d2].crashed && #[trigger] in_past(
                                ov[src as int].history,
                                t,
                                x,
                            ) ==> in_past((#[trigger] ov[d2]).delivered, t, x),
                    decreases obs@.len() - dst,
                {
                    proof {
                        assert(ov[dst as int] == obs@[dst as int]@);
                    }
                    if !obs[dst].crashed {
                        let mut k: usize = 0;
                        while k < cut
                            invariant
                                ov == obs_views(obs@),
                                src < obs@.len(),
                                i < obs@[src as int].sent@.len(),
                                dst < obs@.len(),
                                ov.len() == obs@.len(),
                                ov[src as int] == obs@[src as int]@,
                                ov[dst as int] == obs@[dst as int]@,
                                t == obs@[src as int].sent@[i as int]@,
                                t == ov[src as int].sent[i as int],
                                ov[src as int].sent.len() == obs@[src as int].sent@.len(),
                                cut == find_text(ov[src as int].history, 0, t),
                                cut <= ov[src as int].history.len(),
                                ov[src as int].history.len() == obs@[src as int].history@.len(),
                                somebody_delivered(ov, t),
                                !ov[dst as int].crashed,
                                k <= cut,
                                forall|k2: int|
                                    0 <= k2 < k ==> in_past(
                                        ov[dst as int].delivered,
                                        t,
                                        (#[trigger] ov[src as int].history[k2]),
                                    ),
                            decreases cut - k,
                        {
                            proof {
                                assert(ov[src as int].history[k as int] == obs@[src
                                    as int].history@[k as int]@);
                            }
                            if !check_in_past(
                                &obs[dst].delivered,
                                obs[src].sent[i].as_str(),
                                obs[src].history[k].as_str(),
                            ) {
                                proof {
                                    assert(in_past(
                                        ov[src as int].history,
                                        t,
                                        ov[src as int].history[k as int],
                                    ));
                                    assert(!in_past(
                                        ov[dst as int].delivered,
                                        t,
                                        ov[src as int].history[k as int],
                                    ));
                                    assert(!ov[dst as int].crashed);
                                    assert(somebody_delivered(ov, t));
                                    assert(!causal_order(ov));
                                }
                                return false;
                            }
                            k += 1;
                        }
                        proof {
                            assert forall|x: Seq<char>|
                                #[trigger] in_past(ov[src as int].history, t, x) implies in_past(
                                ov[dst as int].delivered,
                                t,
                                x,
                            ) by {
                                let k2 = choose|k2: int|
                                    0 <= k2 < find_text(ov[src as int].history, 0, t) && (
                                    #[trigger] ov[src as int].history[k2]) == x;
                                assert(in_past(
                                    ov[dst as int].delivered,
                                    t,
                                    ov[src as int].history[k2],
                                ));
                            }
                        }
                    }
                    dst += 1;
                }
            }
            i += 1;
        }
        src += 1;
    }
    true
}

/// The outcome of every broadcast property over one run: `true` means
/// the property holds. Where the single verdict of `check_broadcast`
/// names only the first failed property, this report lists them all.
#[derive(Clone, Copy, PartialEq, Eq, Structural, Debug)]
pub struct BroadcastReport {
    pub no_duplication: bool,
    pub no_creation: bool,
    pub validity: bool,
    pub uniform_agreement: bool,
    pub causal_order: bool,
}

/// Evaluates all five broadcast properties over the observations, each
/// reported on its own.
pub fn evaluate_broadcast(obs: &Vec<NodeObs>) -> (r: BroadcastReport)
    ensures
        r.no_duplication == no_duplication(obs_views(obs@)),
        r.no_creation == no_creation(obs_views(obs@)),
        r.validity == validity(obs_views(obs@)),
        r.uniform_agreement == uniform_agreement(obs_views(obs@)),
        r.causal_order == causal_order(obs_views(obs@)),
{
    BroadcastReport {
        no_duplication: check_no_duplication(obs),
        no_creation: check_no_creation(obs),
        validity: check_validity(obs),
        uniform_agreement: check_uniform_agreement(obs),
        causal_order: check_causal_order(obs),
    }
}

/// Evaluates the five broadcast properties over the observations.
pub fn check_broadcast(obs: &Vec<NodeObs>) -> (r: Result<(), BroadcastViolation>)
    ensures
        r == check_broadcast_spec(obs_views(obs@)),
        r is Ok <==> ({
            &&& no_duplication(obs_views(obs@))
            &&& no_creation(obs_views(obs@))
            &&& validity(obs_views(obs@))
            &&& uniform_agreement(obs_views(obs@))
            &&& causal_order(obs_views(obs@))
        }),
{
    if !check_no_duplication(obs) {
        return Result::Err(BroadcastViolation::Duplication);
    }
    if !check_no_creation(obs) {
        return Result::Err(BroadcastViolation::Creation);
    }
    if !check_validity(obs) {
        return Result::Err(BroadcastViolation::Validity);
    }
    if !check_uniform_agreement(obs) {
        return Result::Err(BroadcastViolation::Agreement);
    }
    if !check_causal_order(obs) {
        return Result::Err(BroadcastViolation::CausalOrder);
    }
    Result::Ok(())
}

/// The texts of the log entries of the given kind, in log order.
pub fn texts_of(events: &Vec<LocalEvent>, k: LocalKind) -> (r: Vec<String>)
    ensures
        views_of(r@) == texts_of_kind(log_views(events@), k),
{
    let ghost lv = log_views(events@);
    let mut out: Vec<String> = Vec::new();
    let mut i: usize = 0;
    while i < events.len()
        invariant
            lv == log_views(events@),
            i <= events@.len(),
            lv.len() == events@.len(),
            views_of(out@) == texts_of_kind(lv.take(i as int), k),
        decreases events@.len() - i,
    {
        let ghost outpre = views_of(out@);
        proof {
            assert(lv[i as int] == events@[i as int]@);
            assert(lv.take(i + 1 as int).drop_last() =~= lv.take(i as int));
            assert(lv.take(i + 1 as int).last() == lv[i as int]);
        }
        let matches_kind = events[i].kind == k;
        if matches_kind {
            match events[i].msg.payload.get("text") {
                Option::Some(v) => {
                    match v {
                        crate::msg::Value::S(s) => {
                            out.push(s.clone());
                            proof {
                                assert(views_of(out@) =~= outpre.push(the_text(lv[i as int].msg)));
                            }
                        },
                        _ => {},
                    }
                },
                Option::None => {},
            }
        }
        i += 1;
    }
    proof {
        assert(lv.take(lv.len() as int) =~= lv);
    }
    out
}

/// The texts of all log entries, in log order.
pub fn texts_all(events: &Vec<LocalEvent>) -> (r: Vec<String>)
    ensures
        views_of(r@) == texts_any(log_views(events@)),
{
    let ghost lv = log_views(events@);
    let mut out: Vec<String> = Vec::new();
    let mut i: usize = 0;
    while i < events.len()
        invariant
            lv == log_views(events@),
            i <= events@.len(),
            lv.len() == events@.len(),
            views_of(out@) == texts_any(lv.take(i as int)),
        decreases events@.len() - i,
    {
        let ghost outpre = views_of(out@);
        proof {
            assert(lv[i as int] == events@[i as int]@);
            assert(lv.take(i + 1 as int).drop_last() =~= lv.take(i as int));
            assert(lv.take(i + 1 as int).last() == lv[i as int]);
        }
        match events[i].msg.payload.get("text") {
            Option::Some(v) => {
                match v {
                    crate::msg::Value::S(s) => {
                        out.push(s.clone());
                        proof {
                            assert(views_of(out@) =~= outpre.push(the_text(lv[i as int].msg)));
                        }
                    },
                    _ => {},
                }
            },
            Option::None => {},
        }
        i += 1;
    }
    proof {
        assert(lv.take(lv.len() as int) =~= lv);
    }
    out
}

/// Extracts each node's observations from a finished run: identity, crash
/// state, sent texts (local inputs), delivered texts (local outputs) and
/// the full history.
pub fn collect_observations<N: Node>(sys: &System<N>) -> (r: Vec<NodeObs>)
    requires
        sys.wf(),
    ensures
        r@.len() == sys.nodes@.len(),
        forall|i: int|
            0 <= i < r@.len() ==> ({
                &&& (#[trigger] obs_views(r@)[i]).id == sys.slots()[i].id
                &&& obs_views(r@)[i].crashed == sys.slots()[i].crashed
                &&& obs_views(r@)[i].sent == texts_of_kind(sys.slots()[i].log, LocalKind::Input)
                &&& obs_views(r@)[i].delivered == texts_of_kind(
                    sys.slots()[i].log,
                    LocalKind::Output,
                )
                &&& obs_views(r@)[i].history == texts_any(sys.slots()[i].log)
            }),
{
    let ids = sys.get_node_ids();
    proof {
        assert(views_of(ids@).len() == ids@.len());
        assert(sys.ids().len() == sys.nodes@.len());
    }
    let mut out: Vec<NodeObs> = Vec::new();
    let mut i: usize = 0;
    while i < ids.len()
        invariant
            sys.wf(),
            views_of(ids@) == sys.ids(),
            ids@.len() == sys.nodes@.len(),
            i <= ids@.len(),
            out@.len() == i,
            forall|j: int|
                0 <= j < i ==> ({
                    &&& (#[trigger] obs_views(out@)[j]).id == sys.slots()[j].id
                    &&& obs_views(out@)[j].crashed == sys.slots()[j].crashed
                    &&& obs_views(out@)[j].sent == texts_of_kind(
                        sys.slots()[j].log,
                        LocalKind::Input,
                    )
                    &&& obs_views(out@)[j].delivered == texts_of_kind(
                        sys.slots()[j].log,
                        LocalKind::Output,
                    )
                    &&& obs_views(out@)[j].history == texts_any(sys.slots()[j].log)
                }),
        decreases ids@.len() - i,
    {
        proof {
            assert(views_of(ids@)[i as int] == ids@[i as int]@);
            assert(sys.ids()[i as int] == sys.nodes@[i as int].id@);
            assert(sys.slots()[i as int].id == sys.nodes@[i as int].id@);
            crate::system::lemma_idx_of(*sys, i as int);
        }
        let id = ids[i].clone();
        let crashed = sys.node_is_crashed(id.as_str());
        let events = sys.get_local_events(id.as_str());
        let sent = texts_of(&events, LocalKind::Input);
        let delivered = texts_of(&events, LocalKind::Output);
        let history = texts_all(&events);
        let obs = NodeObs { id, crashed, sent, delivered, history };
        let ghost outpre = out@;
        out.push(obs);
        proof {
            assert(obs_views(out@) =~= obs_views(outpre).push(out@[i as int]@));
            assert(forall|j: int|
                0 <= j < i ==> #[trigger] obs_views(out@)[j] == obs_views(outpre)[j]);
            assert(obs_views(out@)[i as int] == out@[i as int]@);
            assert(log_views(events@) == sys.slots()[i as int].log);
        }
        i += 1;
    }
    out
}

} // verus!
