//! The pending-event queue: a priority queue of timed events keyed by
//! `(deliver_at, sequence)`. The sequence number is a global monotone
//! counter assigned at insertion, so keys are distinct, ties in time break
//! by insertion order, and the pop order is a pure function of the queue's
//! contents.

use vstd::prelude::*;
use crate::msg::{Message, MessageV, dup_message};
use crate::strutil::str_eq;

verus! {

/// What a pending event does when dispatched.
pub enum EvKind {
    /// A network message arriving at its destination.
    Deliver { src: String, dst: String, msg: Message },
    /// A named timer firing on a node.
    Timer { node: String, name: String },
}

/// Spec-level shape of an event kind.
pub enum EvKindV {
    Deliver { src: Seq<char>, dst: Seq<char>, msg: MessageV },
    Timer { node: Seq<char>, name: Seq<char> },
}

impl View for EvKind {
    type V = EvKindV;

    open spec fn view(&self) -> EvKindV {
        match self {
            EvKind::Deliver { src, dst, msg } => EvKindV::Deliver {
                src: src@,
                dst: dst@,
                msg: msg@,
            },
            EvKind::Timer { node, name } => EvKindV::Timer { node: node@, name: name@ },
        }
    }
}

/// A pending event: its dispatch time, its tie-breaking sequence number,
/// and what it does.
pub struct PendingEvent {
    pub time: u64,
    pub seq: u64,
    pub kind: EvKind,
}

/// Spec-level shape of a pending event.
pub struct PendingEventV {
    pub time: u64,
    pub seq: u64,
    pub kind: EvKindV,
}

impl View for PendingEvent {
    type V = PendingEventV;

    open spec fn view(&self) -> PendingEventV {
        PendingEventV { time: self.time, seq: self.seq, kind: self.kind@ }
    }
}

/// A copy of a pending event with the same view.
pub fn dup_pending(e: &PendingEvent) -> (r: PendingEvent)
    ensures
        r@ == e@,
{
    let kind = match &e.kind {
        EvKind::Deliver { src, dst, msg } => EvKind::Deliver {
            src: src.clone(),
            dst: dst.clone(),
            msg: dup_message(msg),
        },
        EvKind::Timer { node, name } => EvKind::Timer { node: node.clone(), name: name.clone() },
    };
    PendingEvent { time: e.time, seq: e.seq, kind }
}

/// Strict order on event keys: earlier time first, lower sequence number
/// breaking ties.
pub open spec fn key_lt(a: PendingEventV, b: PendingEventV) -> bool {
    a.time < b.time || (a.time == b.time && a.seq < b.seq)
}

/// Whether an event is the firing of the given timer on the given node.
pub open spec fn is_timer_for(e: PendingEventV, node: Seq<char>, name: Seq<char>) -> bool {
    match e.kind {
        EvKindV::Timer { node: n, name: m } => n == node && m == name,
        _ => false,
    }
}

/// The queue contents with every firing of the given timer removed, order
/// otherwise kept.
pub open spec fn without_timers(s: Seq<PendingEventV>, node: Seq<char>, name: Seq<char>) -> Seq<
    PendingEventV,
>
    decreases s.len(),
{
    if s.len() == 0 {
        Seq::empty()
    } else {
        let rest = without_timers(s.drop_last(), node, name);
        if is_timer_for(s.last(), node, name) {
            rest
        } else {
            rest.push(s.last())
        }
    }
}

/// How many firings of the given timer the queue holds.
pub open spec fn timer_count(s: Seq<PendingEventV>, node: Seq<char>, name: Seq<char>) -> int
    decreases s.len(),
{
    if s.len() == 0 {
        0
    } else {
        timer_count(s.drop_last(), node, name) + (if is_timer_for(s.last(), node, name) {
            1int
        } else {
            0int
        })
    }
}

/// Every element of the filtered queue is an element of the original.
pub proof fn lemma_without_timers_membership(
    s: Seq<PendingEventV>,
    node: Seq<char>,
    name: Seq<char>,
)
    ensures
        forall|k: int|
            0 <= k < without_timers(s, node, name).len() ==> exists|j: int|
                0 <= j < s.len() && #[trigger] without_timers(s, node, name)[k] == s[j],
    decreases s.len(),
{
    if s.len() > 0 {
        lemma_without_timers_membership(s.drop_last(), node, name);
        let w = without_timers(s, node, name);
        let wrest = without_timers(s.drop_last(), node, name);
        assert forall|k: int| 0 <= k < w.len() implies exists|j: int|
            0 <= j < s.len() && #[trigger] w[k] == s[j] by {
            if k < wrest.len() {
                let j = choose|j: int| 0 <= j < s.drop_last().len() && wrest[k] == s.drop_last()[j];
                assert(s.drop_last()[j] == s[j]);
                assert(w[k] == s[j]);
            } else {
                assert(w[k] == s.last());
                assert(w[k] == s[s.len() - 1]);
            }
        }
    }
}

/// Filtering timers out keeps the strict ordering of sequence numbers.
pub proof fn lemma_without_timers_sorted(s: Seq<PendingEventV>, node: Seq<char>, name: Seq<char>)
    requires
        forall|i: int, j: int| 0 <= i < j < s.len() ==> s[i].seq < s[j].seq,
    ensures
        forall|i: int, j: int|
            0 <= i < j < without_timers(s, node, name).len() ==> without_timers(s, node, name)[i].seq
                < without_timers(s, node, name)[j].seq,
    decreases s.len(),
{
    if s.len() > 0 {
        assert(forall|i: int, j: int|
            0 <= i < j < s.drop_last().len() ==> s.drop_last()[i].seq < s.drop_last()[j].seq);
        lemma_without_timers_sorted(s.drop_last(), node, name);
        lemma_without_timers_membership(s.drop_last(), node, name);
        let w = without_timers(s, node, name);
        let wrest = without_timers(s.drop_last(), node, name);
        if !is_timer_for(s.last(), node, name) {
            assert forall|i: int, j: int| 0 <= i < j < w.len() implies w[i].seq < w[j].seq by {
                if j < wrest.len() {
                    assert(w[i] == wrest[i] && w[j] == wrest[j]);
                } else {
                    assert(w[j] == s.last());
                    assert(w[i] == wrest[i]);
                    let m = choose|m: int|
                        0 <= m < s.drop_last().len() && wrest[i] == s.drop_last()[m];
                    assert(s.drop_last()[m] == s[m]);
                    assert(s[m].seq < s[s.len() - 1].seq);
                }
            }
        }
    }
}

/// Every sequence number in the filtered queue stays below any bound that
/// held for the original.
pub proof fn lemma_without_timers_seq_bound(
    s: Seq<PendingEventV>,
    node: Seq<char>,
    name: Seq<char>,
    bound: int,
)
    requires
        forall|i: int| 0 <= i < s.len() ==> s[i].seq < bound,
    ensures
        forall|i: int|
            0 <= i < without_timers(s, node, name).len() ==> without_timers(s, node, name)[i].seq
                < bound,
{
    lemma_without_timers_membership(s, node, name);
}

/// The filtered queue holds no firing of the removed timer.
pub proof fn lemma_without_timers_none(s: Seq<PendingEventV>, node: Seq<char>, name: Seq<char>)
    ensures
        timer_count(without_timers(s, node, name), node, name) == 0,
        forall|i: int|
            0 <= i < without_timers(s, node, name).len() ==> !is_timer_for(
                without_timers(s, node, name)[i],
                node,
                name,
            ),
    decreases s.len(),
{
    if s.len() > 0 {
        lemma_without_timers_none(s.drop_last(), node, name);
        let w = without_timers(s, node, name);
        let wrest = without_timers(s.drop_last(), node, name);
        if !is_timer_for(s.last(), node, name) {
            assert(w.drop_last() =~= wrest);
        }
    }
}

/// A queue with no matching firing has a zero count for that timer.
pub proof fn lemma_timer_count_from_none(s: Seq<PendingEventV>, node: Seq<char>, name: Seq<char>)
    requires
        forall|i: int| 0 <= i < s.len() ==> !is_timer_for(s[i], node, name),
    ensures
        timer_count(s, node, name) == 0,
    decreases s.len(),
{
    if s.len() > 0 {
        assert(forall|i: int|
            0 <= i < s.drop_last().len() ==> !is_timer_for(s.drop_last()[i], node, name));
        lemma_timer_count_from_none(s.drop_last(), node, name);
    }
}

/// The time-ordered, tie-broken queue of pending events.
pub struct EventQueue {
    pub items: Vec<PendingEvent>,
    pub next_seq: u64,
}

impl View for EventQueue {
    type V = Seq<PendingEventV>;

    open spec fn view(&self) -> Seq<PendingEventV> {
        self.items@.map_values(|e: PendingEvent| e@)
    }
}

impl EventQueue {
    /// Sequence numbers strictly increase along the queue and stay below
    /// the insertion counter.
    pub open spec fn wf(self) -> bool {
        &&& forall|i: int, j: int| 0 <= i < j < self@.len() ==> self@[i].seq < self@[j].seq
        &&& forall|i: int| 0 <= i < self@.len() ==> self@[i].seq < self.next_seq
    }

    /// An empty queue.
    pub fn new() -> (r: EventQueue)
        ensures
            r@.len() == 0,
            r.next_seq == 0,
            r.wf(),
    {
        EventQueue { items: Vec::new(), next_seq: 0 }
    }

    /// How many events are pending.
    pub fn len(&self) -> (r: usize)
        ensures
            r == self@.len(),
    {
        self.items.len()
    }

    /// Inserts an event at the given time, assigning the next sequence
    /// number. Once the sequence counter is exhausted the queue refuses
    /// further insertions and stays unchanged.
    pub fn push(&mut self, time: u64, kind: EvKind)
        requires
            old(self).wf(),
        ensures
            final(self).wf(),
            old(self).next_seq < u64::MAX ==> final(self)@ == old(self)@.push(
                (PendingEventV { time, seq: old(self).next_seq, kind: kind@ }),
            ) && final(self).next_seq == old(self).next_seq + 1,
            old(self).next_seq == u64::MAX ==> final(self)@ == old(self)@ && final(self).next_seq
                == old(self).next_seq,
    {
        if self.next_seq < u64::MAX {
            let seq_no = self.next_seq;
            self.next_seq = seq_no + 1;
            let ghost pre = self@;
            self.items.push(PendingEvent { time, seq: seq_no, kind });
            proof {
                assert(self@ =~= pre.push(PendingEventV { time, seq: seq_no, kind: kind@ }));
            }
        }
    }

    /// Removes and returns the event with the least `(time, sequence)` key.
    /// The returned event's key is strictly below the key of everything
    /// left in the queue: the pop order is total.
    pub fn pop_min(&mut self) -> (r: Option<PendingEvent>)
        requires
            old(self).wf(),
        ensures
            final(self).wf(),
            final(self).next_seq == old(self).next_seq,
            match r {
                Option::None => old(self)@.len() == 0 && final(self)@ == old(self)@,
                Option::Some(ev) => exists|k: int|
                    0 <= k < old(self)@.len() && old(self)@[k] == ev@ && final(self)@ == old(
                        self,
                    )@.remove(k) && (forall|j: int|
                        0 <= j < old(self)@.len() && j != k ==> key_lt(ev@, old(self)@[j])),
            },
    {
        if self.items.len() == 0 {
            return Option::None;
        }
        let mut best: usize = 0;
        let mut i: usize = 1;
        while i < self.items.len()
            invariant
                self.wf(),
                best < i <= self@.len(),
                forall|j: int| 0 <= j < i && j != best ==> key_lt(self@[best as int], self@[j]),
            decreases self@.len() - i,
        {
            let better = self.items[i].time < self.items[best].time || (self.items[i].time
                == self.items[best].time && self.items[i].seq < self.items[best].seq);
            proof {
                assert(self@[i as int] == self.items@[i as int]@);
                assert(self@[best as int] == self.items@[best as int]@);
            }
            if better {
                best = i;
            }
            i += 1;
        }
        let ghost pre = self@;
        let ghost bi = best as int;
        let ev = self.items.remove(best);
        proof {
            assert(ev@ == pre[bi]);
            assert(self@ =~= pre.remove(bi));
        }
        Option::Some(ev)
    }

    /// The least dispatch time among the pending events, if any.
    pub fn min_time(&self) -> (r: Option<u64>)
        ensures
            match r {
                Option::None => self@.len() == 0,
                Option::Some(t) => (exists|k: int| 0 <= k < self@.len() && self@[k].time == t)
                    && (forall|j: int| 0 <= j < self@.len() ==> self@[j].time >= t),
            },
    {
        if self.items.len() == 0 {
            return Option::None;
        }
        let mut t = self.items[0].time;
        let mut i: usize = 1;
        proof {
            assert(self@[0] == self.items@[0]@);
        }
        while i < self.items.len()
            invariant
                1 <= i <= self@.len(),
                self@.len() == self.items@.len(),
                exists|k: int| 0 <= k < i && self@[k].time == t,
                forall|j: int| 0 <= j < i ==> self@[j].time >= t,
            decreases self@.len() - i,
        {
            proof {
                assert(self@[i as int] == self.items@[i as int]@);
            }
            if self.items[i].time < t {
                t = self.items[i].time;
            }
            i += 1;
        }
        Option::Some(t)
    }

    /// Removes every pending firing of the given timer on the given node.
    pub fn cancel_timers(&mut self, node: &str, name: &str)
        requires
            old(self).wf(),
        ensures
            final(self).wf(),
            final(self).next_seq == old(self).next_seq,
            final(self)@ == without_timers(old(self)@, node@, name@),
    {
        let ghost pre = self@;
        let mut out: Vec<PendingEvent> = Vec::new();
        let mut i: usize = 0;
        while i < self.items.len()
            invariant
                i <= self@.len(),
                self@.len() == self.items@.len(),
                self@ == pre,
                out@.map_values(|e: PendingEvent| e@) == without_timers(
                    pre.take(i as int),
                    node@,
                    name@,
                ),
            decreases self@.len() - i,
        {
            proof {
                assert(self@[i as int] == self.items@[i as int]@);
                assert(pre.take(i + 1 as int).drop_last() =~= pre.take(i as int));
                assert(pre.take(i + 1 as int).last() == pre[i as int]);
            }
            let ghost outpre = out@.map_values(|e: PendingEvent| e@);
            let keep = match &self.items[i].kind {
                EvKind::Timer { node: n2, name: m2 } => !(str_eq(n2.as_str(), node) && str_eq(
                    m2.as_str(),
                    name,
                )),
                _ => true,
            };
            if keep {
                let copy = dup_pending(&self.items[i]);
                out.push(copy);
                proof {
                    assert(out@.map_values(|e: PendingEvent| e@) =~= outpre.push(pre[i as int]));
                }
            }
            i += 1;
        }
        proof {
            assert(pre.take(pre.len() as int) =~= pre);
        }
        self.items = out;
        proof {
            lemma_without_timers_sorted(pre, node@, name@);
            lemma_without_timers_seq_bound(pre, node@, name@, self.next_seq as int);
        }
    }
}

} // verus!
