//! The simulator engine: virtual clock, seeded random stream, network
//! model, node table and pending-event queue, with the step primitives the
//! harness drives. The engine owns every shared resource and serializes
//! every mutation; for a fixed seed, node set and input script the whole
//! run is a pure function of its inputs.

use vstd::prelude::*;
use crate::rng::{SimRng, rng_seeded, rng_step, rng_output};
use crate::msg::{Message, MessageV, dup_message, wire_size, wire_len, msg_views};
use crate::node::{Node, Actions, LocalEvent, LocalEventV, LocalKind, dup_local_event, log_views, outputs_of};
use crate::event::{EventQueue, EvKind, EvKindV, PendingEvent, PendingEventV, key_lt, without_timers, is_timer_for, timer_count};
use crate::strutil::{str_eq, views_of, clip64, sat_add64};

verus! {

/// Upper bound accepted for configured delays and clock skews, so that
/// time arithmetic stays far from the integer limit.
pub const MAX_DELAY: u64 = 0x10_0000_0000_0000;

/// Default upper bound of the uniform message-delay range.
pub const DEFAULT_DELAY_MAX: u64 = 1_000_000;

/// One simulated second, in the engine's time unit (microseconds).
pub const SECOND: u64 = 1_000_000;

/// One node's slot in the engine: identity, fault state, clock skew, the
/// append-only local event log, traffic counters and the memory probe.
pub struct NodeSlot<N> {
    pub id: String,
    pub node: N,
    pub crashed: bool,
    pub skew: u64,
    pub in_blocked: bool,
    pub out_blocked: bool,
    pub disconnected: bool,
    pub log: Vec<LocalEvent>,
    pub sent_cnt: u64,
    pub recv_cnt: u64,
    pub probe_freq: u64,
    pub handler_calls: u64,
    pub max_size: u64,
}

/// Spec-level shape of a node slot, the opaque node implementation left
/// out.
pub struct SlotV {
    pub id: Seq<char>,
    pub crashed: bool,
    pub skew: u64,
    pub in_blocked: bool,
    pub out_blocked: bool,
    pub disconnected: bool,
    pub log: Seq<LocalEventV>,
    pub sent_cnt: u64,
    pub recv_cnt: u64,
    pub probe_freq: u64,
    pub handler_calls: u64,
    pub max_size: u64,
}

/// The abstraction of one slot.
pub open spec fn slot_v<N>(s: NodeSlot<N>) -> SlotV {
    SlotV {
        id: s.id@,
        crashed: s.crashed,
        skew: s.skew,
        in_blocked: s.in_blocked,
        out_blocked: s.out_blocked,
        disconnected: s.disconnected,
        log: s.log@.map_values(|e: LocalEvent| e@),
        sent_cnt: s.sent_cnt,
        recv_cnt: s.recv_cnt,
        probe_freq: s.probe_freq,
        handler_calls: s.handler_calls,
        max_size: s.max_size,
    }
}

/// The simulator engine.
pub struct System<N> {
    pub now: u64,
    pub rng: SimRng,
    pub queue: EventQueue,
    pub nodes: Vec<NodeSlot<N>>,
    pub disabled: Vec<(String, String)>,
    pub delay_min: u64,
    pub delay_max: u64,
    pub drop_ppm: u64,
    pub dupl_ppm: u64,
    pub msg_count: u64,
    pub traffic: u64,
}

impl<N> System<N> {
    /// The abstraction of the node table.
    pub open spec fn slots(self) -> Seq<SlotV> {
        self.nodes@.map_values(|s: NodeSlot<N>| slot_v(s))
    }

    /// The node ids, in creation order.
    pub open spec fn ids(self) -> Seq<Seq<char>> {
        self.nodes@.map_values(|s: NodeSlot<N>| s.id@)
    }

    /// Whether some node carries the given id.
    pub open spec fn has_id(self, id: Seq<char>) -> bool {
        exists|i: int| 0 <= i < self.nodes@.len() && (#[trigger] self.slots()[i]).id == id
    }

    /// The local event log of the node at the given index.
    pub open spec fn log_at(self, i: int) -> Seq<LocalEventV> {
        self.slots()[i].log
    }

    /// Whether the ordered link from `src` to `dst` is disabled.
    pub open spec fn link_disabled(self, src: Seq<char>, dst: Seq<char>) -> bool {
        exists|k: int|
            0 <= k < self.disabled@.len() && #[trigger] self.disabled@[k].0@ == src
                && self.disabled@[k].1@ == dst
    }

    /// The send-time decision of the network model: a message from the
    /// node at `si` to the node at `di` passes only if the source is
    /// neither crashed, outgoing-blocked nor disconnected, the destination
    /// is neither incoming-blocked nor disconnected, and the ordered link
    /// between them is not disabled.
    pub open spec fn send_allowed(self, si: int, di: int) -> bool {
        &&& !self.slots()[si].crashed
        &&& !self.slots()[si].out_blocked
        &&& !self.slots()[si].disconnected
        &&& !self.slots()[di].in_blocked
        &&& !self.slots()[di].disconnected
        &&& !self.link_disabled(self.ids()[si], self.ids()[di])
    }

    /// The deliver-time recheck: an in-flight message is dropped if its
    /// destination has meanwhile crashed, blocked incoming traffic,
    /// disconnected, or the link from its source was disabled.
    pub open spec fn deliver_allowed(self, src: Seq<char>, di: int) -> bool {
        &&& !self.slots()[di].crashed
        &&& !self.slots()[di].in_blocked
        &&& !self.slots()[di].disconnected
        &&& !self.link_disabled(src, self.ids()[di])
    }

    /// The index of the node carrying the given id (meaningful only when
    /// `has_id` holds and ids are distinct).
    pub open spec fn idx_of(self, id: Seq<char>) -> int {
        choose|i: int| 0 <= i < self.nodes@.len() && (#[trigger] self.slots()[i]).id == id
    }

    /// Engine well-formedness: the queue is well formed, no pending event
    /// lies in the past, node ids are distinct, and the delay range is
    /// ordered and bounded.
    pub open spec fn wf(self) -> bool {
        &&& self.queue.wf()
        &&& forall|i: int| 0 <= i < self.queue@.len() ==> #[trigger] self.queue@[i].time >= self.now
        &&& forall|i: int, j: int|
            0 <= i < j < self.nodes@.len() ==> (#[trigger] self.slots()[i]).id
                != (#[trigger] self.slots()[j]).id
        &&& self.delay_min <= self.delay_max
        &&& self.delay_max <= MAX_DELAY
    }
}

/// With distinct ids, a slot's index is recovered by `idx_of` from its id.
pub proof fn lemma_idx_of<N>(sys: System<N>, i: int)
    requires
        sys.wf(),
        0 <= i < sys.nodes@.len(),
    ensures
        sys.idx_of(sys.slots()[i].id) == i,
        sys.has_id(sys.slots()[i].id),
{
    let id = sys.slots()[i].id;
    assert(sys.ids()[i] == sys.nodes@[i].id@);
    assert(sys.slots()[i].id == sys.nodes@[i].id@);
    assert(sys.has_id(id));
    let k = sys.idx_of(id);
    assert(0 <= k < sys.nodes@.len() && sys.slots()[k].id == id);
    if k != i {
        assert(sys.slots()[k].id != sys.slots()[i].id);
    }
}

/// Partition isolation: while the ordered link between two nodes is
/// disabled (as `make_partition` and `disable_link` leave it), a message
/// between them passes neither the send-time decision nor the
/// deliver-time recheck.
pub proof fn lemma_disabled_link_isolates<N>(sys: System<N>, si: int, di: int)
    requires
        sys.wf(),
        0 <= si < sys.nodes@.len(),
        0 <= di < sys.nodes@.len(),
        sys.link_disabled(sys.slots()[si].id, sys.slots()[di].id),
    ensures
        !sys.send_allowed(si, di),
        !sys.deliver_allowed(sys.slots()[si].id, di),
{
    assert(sys.ids()[si] == sys.nodes@[si].id@);
    assert(sys.ids()[di] == sys.nodes@[di].id@);
    assert(sys.slots()[si].id == sys.nodes@[si].id@);
    assert(sys.slots()[di].id == sys.nodes@[di].id@);
}

/// Asymmetric blocking is one-way: a node whose outgoing traffic is
/// blocked sends to nobody, yet still receives whenever its own inbound
/// state and the link allow it.
pub proof fn lemma_outgoing_block_is_one_way<N>(sys: System<N>, si: int, di: int)
    requires
        sys.wf(),
        0 <= si < sys.nodes@.len(),
        0 <= di < sys.nodes@.len(),
        sys.slots()[si].out_blocked,
    ensures
        !sys.send_allowed(si, di),
        (!sys.slots()[si].crashed && !sys.slots()[si].in_blocked && !sys.slots()[si].disconnected
            && !sys.link_disabled(sys.slots()[di].id, sys.slots()[si].id))
            ==> sys.deliver_allowed(sys.slots()[di].id, si),
{
    assert(sys.ids()[si] == sys.nodes@[si].id@);
    assert(sys.slots()[si].id == sys.nodes@[si].id@);
}

/// The node table keeps its length, ids, fault flags, skews and probe
/// configuration; logs may only grow and counters may only grow.
pub open spec fn slots_evolve<N>(a: System<N>, b: System<N>) -> bool {
    &&& a.nodes@.len() == b.nodes@.len()
    &&& forall|i: int|
        0 <= i < a.nodes@.len() ==> {
            &&& (#[trigger] b.slots()[i]).id == a.slots()[i].id
            &&& b.slots()[i].crashed == a.slots()[i].crashed
            &&& b.slots()[i].skew == a.slots()[i].skew
            &&& b.slots()[i].in_blocked == a.slots()[i].in_blocked
            &&& b.slots()[i].out_blocked == a.slots()[i].out_blocked
            &&& b.slots()[i].disconnected == a.slots()[i].disconnected
            &&& b.slots()[i].probe_freq == a.slots()[i].probe_freq
            &&& a.slots()[i].log.is_prefix_of(b.slots()[i].log)
            &&& b.slots()[i].sent_cnt >= a.slots()[i].sent_cnt
            &&& b.slots()[i].recv_cnt >= a.slots()[i].recv_cnt
            &&& b.slots()[i].handler_calls >= a.slots()[i].handler_calls
            &&& b.slots()[i].max_size >= a.slots()[i].max_size
        }
}

/// A crashed node's log never changes.
pub open spec fn crashed_logs_frozen<N>(a: System<N>, b: System<N>) -> bool {
    forall|i: int|
        0 <= i < a.nodes@.len() && (#[trigger] a.slots()[i]).crashed ==> b.slots()[i].log
            == a.slots()[i].log
}

/// What one handler invocation on the node at index `i` may change: only
/// that node's slot, and there only the log (by appending local outputs),
/// the sent and probe counters; identity, fault state and configuration
/// stay, and so do all other slots.
pub open spec fn handler_frame<N>(a: System<N>, b: System<N>, i: int) -> bool {
    &&& b.nodes@.len() == a.nodes@.len()
    &&& forall|j: int|
        0 <= j < a.nodes@.len() && j != i ==> #[trigger] b.slots()[j] == a.slots()[j]
    &&& b.slots()[i].id == a.slots()[i].id
    &&& b.slots()[i].crashed == a.slots()[i].crashed
    &&& b.slots()[i].skew == a.slots()[i].skew
    &&& b.slots()[i].in_blocked == a.slots()[i].in_blocked
    &&& b.slots()[i].out_blocked == a.slots()[i].out_blocked
    &&& b.slots()[i].disconnected == a.slots()[i].disconnected
    &&& b.slots()[i].probe_freq == a.slots()[i].probe_freq
    &&& b.slots()[i].recv_cnt == a.slots()[i].recv_cnt
    &&& a.slots()[i].log.is_prefix_of(b.slots()[i].log)
    &&& forall|k: int|
        a.slots()[i].log.len() <= k < b.slots()[i].log.len() ==> (#[trigger] b.slots()[i].log[k]).kind
            == LocalKind::Output
    &&& b.slots()[i].sent_cnt >= a.slots()[i].sent_cnt
    &&& b.slots()[i].handler_calls >= a.slots()[i].handler_calls
    &&& b.slots()[i].max_size >= a.slots()[i].max_size
    &&& b.now == a.now
    &&& b.delay_min == a.delay_min
    &&& b.delay_max == a.delay_max
    &&& b.drop_ppm == a.drop_ppm
    &&& b.dupl_ppm == a.dupl_ppm
    &&& b.disabled@ == a.disabled@
}

/// The handler frame is reflexive.
pub proof fn lemma_handler_frame_refl<N>(a: System<N>, i: int)
    ensures
        handler_frame(a, a, i),
{
    assert(a.slots()[i].log =~= a.slots()[i].log.take(a.slots()[i].log.len() as int));
}

/// The handler frame composes.
pub proof fn lemma_handler_frame_trans<N>(a: System<N>, b: System<N>, c: System<N>, i: int)
    requires
        handler_frame(a, b, i),
        handler_frame(b, c, i),
    ensures
        handler_frame(a, c, i),
{
    let la = a.slots()[i].log;
    let lb = b.slots()[i].log;
    let lc = c.slots()[i].log;
    assert(la =~= lc.take(la.len() as int)) by {
        assert(la =~= lb.take(la.len() as int));
        assert(lb =~= lc.take(lb.len() as int));
    }
    assert forall|k: int| la.len() <= k < lc.len() implies (#[trigger] lc[k]).kind
        == LocalKind::Output by {
        if k < lb.len() {
            assert(lb =~= lc.take(lb.len() as int));
            assert(lb[k] == lc[k]);
        }
    }
}

/// What a run of engine steps may change between two states: slots evolve
/// (logs and counters grow, identity and fault state stay), crashed logs
/// are frozen, every appended log entry is a local output, the network
/// configuration stays and time only advances.
pub open spec fn run_frame<N>(a: System<N>, b: System<N>) -> bool {
    &&& slots_evolve(a, b)
    &&& crashed_logs_frozen(a, b)
    &&& outputs_appended(a, b)
    &&& net_config_unchanged(a, b)
    &&& b.now >= a.now
}

/// Every log entry appended between the two states is a local output.
pub open spec fn outputs_appended<N>(a: System<N>, b: System<N>) -> bool {
    forall|i: int, k: int|
        0 <= i < a.nodes@.len() && a.slots()[i].log.len() <= k < b.slots()[i].log.len() ==> (
        #[trigger] b.slots()[i].log[k]).kind == LocalKind::Output
}

/// The run frame is reflexive.
pub proof fn lemma_run_frame_refl<N>(a: System<N>)
    ensures
        run_frame(a, a),
{
    assert forall|i: int| 0 <= i < a.nodes@.len() implies (#[trigger] a.slots()[i]).log.is_prefix_of(
        a.slots()[i].log,
    ) by {
        assert(a.slots()[i].log =~= a.slots()[i].log.take(a.slots()[i].log.len() as int));
    }
}

/// The run frame composes.
pub proof fn lemma_run_frame_trans<N>(a: System<N>, b: System<N>, c: System<N>)
    requires
        run_frame(a, b),
        run_frame(b, c),
    ensures
        run_frame(a, c),
{
    assert forall|i: int| 0 <= i < a.nodes@.len() implies (#[trigger] a.slots()[i]).log.is_prefix_of(
        c.slots()[i].log,
    ) by {
        let la = a.slots()[i].log;
        let lb = b.slots()[i].log;
        let lc = c.slots()[i].log;
        assert(la =~= lb.take(la.len() as int));
        assert(lb =~= lc.take(lb.len() as int));
        assert(la =~= lc.take(la.len() as int));
    }
    assert forall|i: int, k: int|
        0 <= i < a.nodes@.len() && a.slots()[i].log.len() <= k < c.slots()[i].log.len() implies (
    #[trigger] c.slots()[i].log[k]).kind == LocalKind::Output by {
        let lb = b.slots()[i].log;
        let lc = c.slots()[i].log;
        if k < lb.len() {
            assert(lb =~= lc.take(lb.len() as int));
            assert(lb[k] == lc[k]);
        }
    }
    assert forall|i: int|
        0 <= i < a.nodes@.len() && (#[trigger] a.slots()[i]).crashed implies c.slots()[i].log
        == a.slots()[i].log by {
        assert(b.slots()[i].crashed == a.slots()[i].crashed);
    }
}

/// What a whole harness session may change: like a run, but local inputs
/// may be injected, so appended log entries are not all outputs.
pub open spec fn session_frame<N>(a: System<N>, b: System<N>) -> bool {
    &&& slots_evolve(a, b)
    &&& crashed_logs_frozen(a, b)
    &&& net_config_unchanged(a, b)
    &&& b.now >= a.now
}

/// A run frame is a session frame.
pub proof fn lemma_run_frame_session<N>(a: System<N>, b: System<N>)
    requires
        run_frame(a, b),
    ensures
        session_frame(a, b),
{
}

/// The session frame is reflexive.
pub proof fn lemma_session_frame_refl<N>(a: System<N>)
    ensures
        session_frame(a, a),
{
    assert forall|i: int| 0 <= i < a.nodes@.len() implies (#[trigger] a.slots()[i]).log.is_prefix_of(
        a.slots()[i].log,
    ) by {
        assert(a.slots()[i].log =~= a.slots()[i].log.take(a.slots()[i].log.len() as int));
    }
}

/// The session frame composes.
pub proof fn lemma_session_frame_trans<N>(a: System<N>, b: System<N>, c: System<N>)
    requires
        session_frame(a, b),
        session_frame(b, c),
    ensures
        session_frame(a, c),
{
    assert forall|i: int| 0 <= i < a.nodes@.len() implies (#[trigger] a.slots()[i]).log.is_prefix_of(
        c.slots()[i].log,
    ) by {
        let la = a.slots()[i].log;
        let lb = b.slots()[i].log;
        let lc = c.slots()[i].log;
        assert(la =~= lb.take(la.len() as int));
        assert(lb =~= lc.take(lb.len() as int));
        assert(la =~= lc.take(la.len() as int));
    }
    assert forall|i: int|
        0 <= i < a.nodes@.len() && (#[trigger] a.slots()[i]).crashed implies c.slots()[i].log
        == a.slots()[i].log by {
        assert(b.slots()[i].crashed == a.slots()[i].crashed);
    }
}

/// Consumed events stay consumed: every pending event of the later state
/// whose sequence number was already assigned in the earlier state stood
/// in the earlier queue. Since sequence numbers are never reused, an
/// event that left the queue can never return.
pub open spec fn no_reissue<N>(a: System<N>, b: System<N>) -> bool {
    &&& b.queue.next_seq >= a.queue.next_seq
    &&& forall|m: int|
        0 <= m < b.queue@.len() && (#[trigger] b.queue@[m]).seq < a.queue.next_seq
            ==> exists|m2: int|
            0 <= m2 < a.queue@.len() && (#[trigger] a.queue@[m2]).seq == b.queue@[m].seq
}

/// States with the same queue reissue nothing.
pub proof fn lemma_no_reissue_eq<N>(a: System<N>, b: System<N>)
    requires
        b.queue@ == a.queue@,
        b.queue.next_seq == a.queue.next_seq,
    ensures
        no_reissue(a, b),
{
    assert forall|m: int|
        0 <= m < b.queue@.len() && (#[trigger] b.queue@[m]).seq < a.queue.next_seq implies exists|
        m2: int,
    | 0 <= m2 < a.queue@.len() && (#[trigger] a.queue@[m2]).seq == b.queue@[m].seq by {
        assert(a.queue@[m].seq == b.queue@[m].seq);
    }
}

/// Appending only fresh sequence numbers reissues nothing.
pub proof fn lemma_no_reissue_from_append<N>(a: System<N>, b: System<N>)
    requires
        b.queue.next_seq >= a.queue.next_seq,
        a.queue@.is_prefix_of(b.queue@),
        forall|k: int|
            a.queue@.len() <= k < b.queue@.len() ==> (#[trigger] b.queue@[k]).seq
                >= a.queue.next_seq,
    ensures
        no_reissue(a, b),
{
    assert forall|m: int|
        0 <= m < b.queue@.len() && (#[trigger] b.queue@[m]).seq < a.queue.next_seq implies exists|
        m2: int,
    | 0 <= m2 < a.queue@.len() && (#[trigger] a.queue@[m2]).seq == b.queue@[m].seq by {
        assert(m < a.queue@.len());
        assert(a.queue@ =~= b.queue@.take(a.queue@.len() as int));
        assert(a.queue@[m].seq == b.queue@[m].seq);
    }
}

/// No reissue composes.
pub proof fn lemma_no_reissue_trans<N>(a: System<N>, b: System<N>, c: System<N>)
    requires
        no_reissue(a, b),
        no_reissue(b, c),
    ensures
        no_reissue(a, c),
{
    assert forall|m: int|
        0 <= m < c.queue@.len() && (#[trigger] c.queue@[m]).seq < a.queue.next_seq implies exists|
        m2: int,
    | 0 <= m2 < a.queue@.len() && (#[trigger] a.queue@[m2]).seq == c.queue@[m].seq by {
        assert(c.queue@[m].seq < b.queue.next_seq);
        let mb = choose|mb: int|
            0 <= mb < b.queue@.len() && (#[trigger] b.queue@[mb]).seq == c.queue@[m].seq;
        let ma = choose|ma: int|
            0 <= ma < a.queue@.len() && (#[trigger] a.queue@[ma]).seq == b.queue@[mb].seq;
        assert(a.queue@[ma].seq == c.queue@[m].seq);
    }
}

/// The observable effect of dispatching one pending event: a delivery
/// whose destination passes the deliver-time recheck is counted received
/// exactly once more; a timer firing on a live node invokes one handler.
pub open spec fn dispatch_effect<N>(a: System<N>, b: System<N>, ev: PendingEventV) -> bool {
    match ev.kind {
        EvKindV::Deliver { src, dst, msg } => a.has_id(dst) && a.deliver_allowed(
            src,
            a.idx_of(dst),
        ) ==> b.slots()[a.idx_of(dst)].recv_cnt == clip64(
            a.slots()[a.idx_of(dst)].recv_cnt + 1,
        ),
        EvKindV::Timer { node, name } => a.has_id(node) && !a.slots()[a.idx_of(node)].crashed
            ==> b.slots()[a.idx_of(node)].handler_calls == clip64(
            a.slots()[a.idx_of(node)].handler_calls + 1,
        ),
    }
}

/// A handler frame at some node, with time and clock unchanged, is a run
/// frame, provided the node is not crashed.
pub proof fn lemma_handler_frame_run<N>(a: System<N>, b: System<N>, i: int)
    requires
        handler_frame(a, b, i),
        0 <= i < a.nodes@.len(),
        !a.slots()[i].crashed,
    ensures
        run_frame(a, b),
{
    assert forall|j: int| 0 <= j < a.nodes@.len() implies (#[trigger] a.slots()[j]).log.is_prefix_of(
        b.slots()[j].log,
    ) by {
        if j != i {
            assert(b.slots()[j] == a.slots()[j]);
            assert(a.slots()[j].log =~= a.slots()[j].log.take(a.slots()[j].log.len() as int));
        }
    }
    assert forall|j: int|
        0 <= j < a.nodes@.len() && (#[trigger] a.slots()[j]).crashed implies b.slots()[j].log
        == a.slots()[j].log by {
        assert(j != i);
        assert(b.slots()[j] == a.slots()[j]);
    }
}

/// The clock, the random stream, the queue and the global counters are
/// unchanged.
pub open spec fn core_unchanged<N>(a: System<N>, b: System<N>) -> bool {
    &&& b.now == a.now
    &&& b.rng == a.rng
    &&& b.queue@ == a.queue@
    &&& b.msg_count == a.msg_count
    &&& b.traffic == a.traffic
}

/// The node table is unchanged (up to the opaque node implementations).
pub open spec fn slots_unchanged<N>(a: System<N>, b: System<N>) -> bool {
    &&& b.nodes@.len() == a.nodes@.len()
    &&& forall|i: int|
        0 <= i < a.nodes@.len() ==> #[trigger] b.slots()[i] == a.slots()[i]
}

/// The network configuration (delays, rates, disabled links) is unchanged.
pub open spec fn net_config_unchanged<N>(a: System<N>, b: System<N>) -> bool {
    &&& b.delay_min == a.delay_min
    &&& b.delay_max == a.delay_max
    &&& b.drop_ppm == a.drop_ppm
    &&& b.dupl_ppm == a.dupl_ppm
    &&& b.disabled@.map_values(|p: (String, String)| (p.0@, p.1@)) == a.disabled@.map_values(
        |p: (String, String)| (p.0@, p.1@),
    )
}

impl<N: Node> System<N> {
    /// A fresh engine with the given seed: time zero, empty node table,
    /// empty queue, reliable network with the default delay range.
    pub fn with_seed(seed: u64) -> (r: System<N>)
        ensures
            r.wf(),
            r.now == 0,
            r.rng.state == rng_seeded(seed),
            r.queue@.len() == 0,
            r.nodes@.len() == 0,
            r.disabled@.len() == 0,
            r.delay_min == 0,
            r.delay_max == DEFAULT_DELAY_MAX,
            r.drop_ppm == 0,
            r.dupl_ppm == 0,
            r.msg_count == 0,
            r.traffic == 0,
    {
        System {
            now: 0,
            rng: SimRng::with_seed(seed),
            queue: EventQueue::new(),
            nodes: Vec::new(),
            disabled: Vec::new(),
            delay_min: 0,
            delay_max: DEFAULT_DELAY_MAX,
            drop_ppm: 0,
            dupl_ppm: 0,
            msg_count: 0,
            traffic: 0,
        }
    }

    /// The index of the node with the given id, if any.
    pub fn find_node(&self, id: &str) -> (r: Option<usize>)
        ensures
            match r {
                Option::Some(i) => i < self.nodes@.len() && self.ids()[i as int] == id@,
                Option::None => !self.has_id(id@),
            },
    {
        let mut i: usize = 0;
        while i < self.nodes.len()
            invariant
                i <= self.nodes@.len(),
                forall|j: int| 0 <= j < i ==> (#[trigger] self.slots()[j]).id != id@,
            decreases self.nodes@.len() - i,
        {
            proof {
                assert(self.ids()[i as int] == self.nodes@[i as int].id@);
                assert(self.slots()[i as int].id == self.nodes@[i as int].id@);
            }
            if str_eq(self.nodes[i].id.as_str(), id) {
                return Option::Some(i);
            }
            i += 1;
        }
        Option::None
    }

    /// Adds a node under the given id, or, if a node with that id already
    /// exists (for instance after a crash), replaces its implementation
    /// and clears the crashed flag to model recovery; the log and the
    /// counters of the old incarnation are kept.
    pub fn add_node(&mut self, id: &str, node: N)
        requires
            old(self).wf(),
        ensures
            final(self).wf(),
            final(self).now == old(self).now,
            final(self).rng == old(self).rng,
            final(self).queue@ == old(self).queue@,
            net_config_unchanged(*old(self), *final(self)),
            final(self).msg_count == old(self).msg_count,
            final(self).traffic == old(self).traffic,
            old(self).has_id(id@) ==> {
                &&& final(self).nodes@.len() == old(self).nodes@.len()
                &&& forall|j: int|
                    0 <= j < old(self).nodes@.len() && old(self).ids()[j] != id@
                        ==> #[trigger] final(self).slots()[j] == old(self).slots()[j]
                &&& forall|j: int|
                    0 <= j < old(self).nodes@.len() && old(self).ids()[j] == id@
                        ==> #[trigger] final(self).slots()[j] == (SlotV {
                        crashed: false,
                        ..old(self).slots()[j]
                    })
            },
            !old(self).has_id(id@) ==> {
                &&& final(self).nodes@.len() == old(self).nodes@.len() + 1
                &&& forall|j: int|
                    0 <= j < old(self).nodes@.len() ==> #[trigger] final(self).slots()[j] == old(
                        self,
                    ).slots()[j]
                &&& final(self).slots().last() == (SlotV {
                    id: id@,
                    crashed: false,
                    skew: 0,
                    in_blocked: false,
                    out_blocked: false,
                    disconnected: false,
                    log: Seq::empty(),
                    sent_cnt: 0,
                    recv_cnt: 0,
                    probe_freq: 0,
                    handler_calls: 0,
                    max_size: 0,
                })
            },
    {
        let found = self.find_node(id);
        match found {
            Option::Some(i) => {
                self.nodes[i].node = node;
                self.nodes[i].crashed = false;
                proof {
                    assert(forall|j: int|
                        0 <= j < self.nodes@.len() && j != i ==> #[trigger] self.slots()[j] == old(
                            self,
                        ).slots()[j]);
                    assert(self.slots()[i as int] == (SlotV {
                        crashed: false,
                        ..old(self).slots()[i as int]
                    }));
                    assert forall|j: int|
                        0 <= j < old(self).nodes@.len() && old(self).ids()[j] == id@ implies j
                        == i by {
                        assert(old(self).slots()[j].id == old(self).ids()[j]);
                        assert(old(self).slots()[i as int].id == old(self).ids()[i as int]);
                    }
                    assert(self.ids() =~= old(self).ids());
                }
            },
            Option::None => {
                let slot = NodeSlot {
                    id: String::from_str(id),
                    node,
                    crashed: false,
                    skew: 0,
                    in_blocked: false,
                    out_blocked: false,
                    disconnected: false,
                    log: Vec::new(),
                    sent_cnt: 0,
                    recv_cnt: 0,
                    probe_freq: 0,
                    handler_calls: 0,
                    max_size: 0,
                };
                self.nodes.push(slot);
                proof {
                    assert(forall|j: int|
                        0 <= j < old(self).nodes@.len() ==> #[trigger] self.slots()[j] == old(
                            self,
                        ).slots()[j]);
                    assert(self.slots().last().log =~= Seq::<LocalEventV>::empty());
                    assert(self.slots().last() == (SlotV {
                        id: id@,
                        crashed: false,
                        skew: 0,
                        in_blocked: false,
                        out_blocked: false,
                        disconnected: false,
                        log: Seq::empty(),
                        sent_cnt: 0,
                        recv_cnt: 0,
                        probe_freq: 0,
                        handler_calls: 0,
                        max_size: 0,
                    }));
                    assert(forall|j: int|
                        0 <= j < old(self).nodes@.len() ==> #[trigger] self.ids()[j] == old(
                            self,
                        ).ids()[j]);
                    assert(forall|j: int|
                        0 <= j < old(self).nodes@.len() ==> old(self).ids()[j] == (
                        #[trigger] old(self).slots()[j]).id);
                }
            },
        }
    }

    /// Sets the fixed clock skew of a node; its handlers observe the
    /// engine clock plus this skew.
    pub fn set_clock_skew(&mut self, id: &str, skew: u64)
        requires
            old(self).wf(),
            skew <= MAX_DELAY,
        ensures
            final(self).wf(),
            final(self).now == old(self).now,
            final(self).rng == old(self).rng,
            final(self).queue@ == old(self).queue@,
            net_config_unchanged(*old(self), *final(self)),
            final(self).msg_count == old(self).msg_count,
            final(self).traffic == old(self).traffic,
            final(self).nodes@.len() == old(self).nodes@.len(),
            forall|j: int|
                0 <= j < old(self).nodes@.len() && old(self).ids()[j] != id@
                    ==> #[trigger] final(self).slots()[j] == old(self).slots()[j],
            forall|j: int|
                0 <= j < old(self).nodes@.len() && old(self).ids()[j] == id@
                    ==> #[trigger] final(self).slots()[j] == (SlotV {
                    skew,
                    ..old(self).slots()[j]
                }),
    {
        let found = self.find_node(id);
        match found {
            Option::Some(i) => {
                self.nodes[i].skew = skew;
                proof {
                    assert(forall|j: int|
                        0 <= j < self.nodes@.len() && j != i ==> #[trigger] self.slots()[j] == old(
                            self,
                        ).slots()[j]);
                    assert(self.slots()[i as int] == (SlotV {
                        skew,
                        ..old(self).slots()[i as int]
                    }));
                    assert forall|j: int|
                        0 <= j < old(self).nodes@.len() && old(self).ids()[j] == id@ implies j
                        == i by {
                        assert(old(self).slots()[j].id == old(self).ids()[j]);
                        assert(old(self).slots()[i as int].id == old(self).ids()[i as int]);
                    }
                    assert(self.ids() =~= old(self).ids());
                }
            },
            Option::None => {
                proof {
                    assert(self.slots() =~= old(self).slots());
                }
            },
        }
    }

    /// Configures the memory probe of a node: every `k` handler
    /// invocations the engine records the node's memory footprint and
    /// keeps the maximum observed.
    pub fn set_max_size_freq(&mut self, id: &str, k: u64)
        requires
            old(self).wf(),
        ensures
            final(self).wf(),
            final(self).now == old(self).now,
            final(self).rng == old(self).rng,
            final(self).queue@ == old(self).queue@,
            net_config_unchanged(*old(self), *final(self)),
            final(self).msg_count == old(self).msg_count,
            final(self).traffic == old(self).traffic,
            final(self).nodes@.len() == old(self).nodes@.len(),
            forall|j: int|
                0 <= j < old(self).nodes@.len() && old(self).ids()[j] != id@
                    ==> #[trigger] final(self).slots()[j] == old(self).slots()[j],
            forall|j: int|
                0 <= j < old(self).nodes@.len() && old(self).ids()[j] == id@
                    ==> #[trigger] final(self).slots()[j] == (SlotV {
                    probe_freq: k,
                    ..old(self).slots()[j]
                }),
    {
        let found = self.find_node(id);
        match found {
            Option::Some(i) => {
                self.nodes[i].probe_freq = k;
                proof {
                    assert(forall|j: int|
                        0 <= j < self.nodes@.len() && j != i ==> #[trigger] self.slots()[j] == old(
                            self,
                        ).slots()[j]);
                    assert(self.slots()[i as int] == (SlotV {
                        probe_freq: k,
                        ..old(self).slots()[i as int]
                    }));
                    assert forall|j: int|
                        0 <= j < old(self).nodes@.len() && old(self).ids()[j] == id@ implies j
                        == i by {
                        assert(old(self).slots()[j].id == old(self).ids()[j]);
                        assert(old(self).slots()[i as int].id == old(self).ids()[i as int]);
                    }
                    assert(self.ids() =~= old(self).ids());
                }
            },
            Option::None => {
                proof {
                    assert(self.slots() =~= old(self).slots());
                }
            },
        }
    }

    /// Crashes a node. The crash is terminal for this incarnation: the
    /// node's handlers are no longer invoked and pending events targeting
    /// it are dropped on dispatch.
    pub fn crash_node(&mut self, id: &str)
        requires
            old(self).wf(),
        ensures
            final(self).wf(),
            final(self).now == old(self).now,
            final(self).rng == old(self).rng,
            final(self).queue@ == old(self).queue@,
            net_config_unchanged(*old(self), *final(self)),
            final(self).msg_count == old(self).msg_count,
            final(self).traffic == old(self).traffic,
            final(self).nodes@.len() == old(self).nodes@.len(),
            forall|j: int|
                0 <= j < old(self).nodes@.len() && old(self).ids()[j] != id@
                    ==> #[trigger] final(self).slots()[j] == old(self).slots()[j],
            forall|j: int|
                0 <= j < old(self).nodes@.len() && old(self).ids()[j] == id@
                    ==> #[trigger] final(self).slots()[j] == (SlotV {
                    crashed: true,
                    ..old(self).slots()[j]
                }),
    {
        let found = self.find_node(id);
        match found {
            Option::Some(i) => {
                self.nodes[i].crashed = true;
                proof {
                    assert(forall|j: int|
                        0 <= j < self.nodes@.len() && j != i ==> #[trigger] self.slots()[j] == old(
                            self,
                        ).slots()[j]);
                    assert(self.slots()[i as int] == (SlotV {
                        crashed: true,
                        ..old(self).slots()[i as int]
                    }));
                    assert forall|j: int|
                        0 <= j < old(self).nodes@.len() && old(self).ids()[j] == id@ implies j
                        == i by {
                        assert(old(self).slots()[j].id == old(self).ids()[j]);
                        assert(old(self).slots()[i as int].id == old(self).ids()[i as int]);
                    }
                    assert(self.ids() =~= old(self).ids());
                }
            },
            Option::None => {
                proof {
                    assert(self.slots() =~= old(self).slots());
                }
            },
        }
    }
    /// Sets a flag of the node with the given id; every other part of the
    /// engine is untouched. Which flag is chosen by index: 0 disconnected,
    /// 1 incoming blocked, 2 outgoing blocked.
    fn set_node_flag(&mut self, id: &str, which: u8, value: bool)
        requires
            old(self).wf(),
            which < 3,
        ensures
            final(self).wf(),
            core_unchanged(*old(self), *final(self)),
            net_config_unchanged(*old(self), *final(self)),
            final(self).nodes@.len() == old(self).nodes@.len(),
            forall|j: int|
                0 <= j < old(self).nodes@.len() && old(self).ids()[j] != id@
                    ==> #[trigger] final(self).slots()[j] == old(self).slots()[j],
            forall|j: int|
                0 <= j < old(self).nodes@.len() && old(self).ids()[j] == id@
                    ==> #[trigger] final(self).slots()[j] == (if which == 0 {
                    SlotV { disconnected: value, ..old(self).slots()[j] }
                } else if which == 1 {
                    SlotV { in_blocked: value, ..old(self).slots()[j] }
                } else {
                    SlotV { out_blocked: value, ..old(self).slots()[j] }
                }),
    {
        let found = self.find_node(id);
        match found {
            Option::Some(i) => {
                if which == 0 {
                    self.nodes[i].disconnected = value;
                } else if which == 1 {
                    self.nodes[i].in_blocked = value;
                } else {
                    self.nodes[i].out_blocked = value;
                }
                proof {
                    assert(forall|j: int|
                        0 <= j < self.nodes@.len() && j != i ==> #[trigger] self.slots()[j] == old(
                            self,
                        ).slots()[j]);
                    assert(self.slots()[i as int] == (if which == 0 {
                        SlotV { disconnected: value, ..old(self).slots()[i as int] }
                    } else if which == 1 {
                        SlotV { in_blocked: value, ..old(self).slots()[i as int] }
                    } else {
                        SlotV { out_blocked: value, ..old(self).slots()[i as int] }
                    }));
                    assert forall|j: int|
                        0 <= j < old(self).nodes@.len() && old(self).ids()[j] == id@ implies j
                        == i by {
                        assert(old(self).slots()[j].id == old(self).ids()[j]);
                        assert(old(self).slots()[i as int].id == old(self).ids()[i as int]);
                    }
                    assert(self.ids() =~= old(self).ids());
                }
            },
            Option::None => {
                proof {
                    assert(self.slots() =~= old(self).slots());
                }
            },
        }
    }

    /// Disconnects a node: all future traffic to or from it is discarded
    /// until it is reconnected.
    pub fn disconnect_node(&mut self, id: &str)
        requires
            old(self).wf(),
        ensures
            final(self).wf(),
            core_unchanged(*old(self), *final(self)),
            net_config_unchanged(*old(self), *final(self)),
            final(self).nodes@.len() == old(self).nodes@.len(),
            forall|j: int|
                0 <= j < old(self).nodes@.len() && old(self).ids()[j] != id@
                    ==> #[trigger] final(self).slots()[j] == old(self).slots()[j],
            forall|j: int|
                0 <= j < old(self).nodes@.len() && old(self).ids()[j] == id@
                    ==> #[trigger] final(self).slots()[j] == (SlotV {
                    disconnected: true,
                    ..old(self).slots()[j]
                }),
    {
        self.set_node_flag(id, 0, true);
    }

    /// Restores bidirectional delivery for a disconnected node.
    pub fn connect_node(&mut self, id: &str)
        requires
            old(self).wf(),
        ensures
            final(self).wf(),
            core_unchanged(*old(self), *final(self)),
            net_config_unchanged(*old(self), *final(self)),
            final(self).nodes@.len() == old(self).nodes@.len(),
            forall|j: int|
                0 <= j < old(self).nodes@.len() && old(self).ids()[j] != id@
                    ==> #[trigger] final(self).slots()[j] == old(self).slots()[j],
            forall|j: int|
                0 <= j < old(self).nodes@.len() && old(self).ids()[j] == id@
                    ==> #[trigger] final(self).slots()[j] == (SlotV {
                    disconnected: false,
                    ..old(self).slots()[j]
                }),
    {
        self.set_node_flag(id, 0, false);
    }

    /// Blocks messages into a node; messages out of it still flow.
    pub fn drop_incoming(&mut self, id: &str)
        requires
            old(self).wf(),
        ensures
            final(self).wf(),
            core_unchanged(*old(self), *final(self)),
            net_config_unchanged(*old(self), *final(self)),
            final(self).nodes@.len() == old(self).nodes@.len(),
            forall|j: int|
                0 <= j < old(self).nodes@.len() && old(self).ids()[j] != id@
                    ==> #[trigger] final(self).slots()[j] == old(self).slots()[j],
            forall|j: int|
                0 <= j < old(self).nodes@.len() && old(self).ids()[j] == id@
                    ==> #[trigger] final(self).slots()[j] == (SlotV {
                    in_blocked: true,
                    ..old(self).slots()[j]
                }),
    {
        self.set_node_flag(id, 1, true);
    }

    /// Undoes `drop_incoming`.
    pub fn pass_incoming(&mut self, id: &str)
        requires
            old(self).wf(),
        ensures
            final(self).wf(),
            core_unchanged(*old(self), *final(self)),
            net_config_unchanged(*old(self), *final(self)),
            final(self).nodes@.len() == old(self).nodes@.len(),
            forall|j: int|
                0 <= j < old(self).nodes@.len() && old(self).ids()[j] != id@
                    ==> #[trigger] final(self).slots()[j] == old(self).slots()[j],
            forall|j: int|
                0 <= j < old(self).nodes@.len() && old(self).ids()[j] == id@
                    ==> #[trigger] final(self).slots()[j] == (SlotV {
                    in_blocked: false,
                    ..old(self).slots()[j]
                }),
    {
        self.set_node_flag(id, 1, false);
    }

    /// Blocks messages out of a node; messages into it still flow.
    pub fn drop_outgoing(&mut self, id: &str)
        requires
            old(self).wf(),
        ensures
            final(self).wf(),
            core_unchanged(*old(self), *final(self)),
            net_config_unchanged(*old(self), *final(self)),
            final(self).nodes@.len() == old(self).nodes@.len(),
            forall|j: int|
                0 <= j < old(self).nodes@.len() && old(self).ids()[j] != id@
                    ==> #[trigger] final(self).slots()[j] == old(self).slots()[j],
            forall|j: int|
                0 <= j < old(self).nodes@.len() && old(self).ids()[j] == id@
                    ==> #[trigger] final(self).slots()[j] == (SlotV {
                    out_blocked: true,
                    ..old(self).slots()[j]
                }),
    {
        self.set_node_flag(id, 2, true);
    }

    /// Undoes `drop_outgoing`.
    pub fn pass_outgoing(&mut self, id: &str)
        requires
            old(self).wf(),
        ensures
            final(self).wf(),
            core_unchanged(*old(self), *final(self)),
            net_config_unchanged(*old(self), *final(self)),
            final(self).nodes@.len() == old(self).nodes@.len(),
            forall|j: int|
                0 <= j < old(self).nodes@.len() && old(self).ids()[j] != id@
                    ==> #[trigger] final(self).slots()[j] == old(self).slots()[j],
            forall|j: int|
                0 <= j < old(self).nodes@.len() && old(self).ids()[j] == id@
                    ==> #[trigger] final(self).slots()[j] == (SlotV {
                    out_blocked: false,
                    ..old(self).slots()[j]
                }),
    {
        self.set_node_flag(id, 2, false);
    }

    /// Sets the uniform delay range for message delivery.
    pub fn set_delays(&mut self, min: u64, max: u64)
        requires
            old(self).wf(),
            min <= max,
            max <= MAX_DELAY,
        ensures
            final(self).wf(),
            core_unchanged(*old(self), *final(self)),
            slots_unchanged(*old(self), *final(self)),
            final(self).delay_min == min,
            final(self).delay_max == max,
            final(self).drop_ppm == old(self).drop_ppm,
            final(self).dupl_ppm == old(self).dupl_ppm,
            final(self).disabled@ == old(self).disabled@,
    {
        self.delay_min = min;
        self.delay_max = max;
        proof {
            assert(self.slots() =~= old(self).slots());
        }
    }

    /// Pins the message delay to a constant.
    pub fn set_delay(&mut self, d: u64)
        requires
            old(self).wf(),
            d <= MAX_DELAY,
        ensures
            final(self).wf(),
            core_unchanged(*old(self), *final(self)),
            slots_unchanged(*old(self), *final(self)),
            final(self).delay_min == d,
            final(self).delay_max == d,
            final(self).drop_ppm == old(self).drop_ppm,
            final(self).dupl_ppm == old(self).dupl_ppm,
            final(self).disabled@ == old(self).disabled@,
    {
        self.set_delays(d, d);
    }

    /// Sets the message drop probability, in parts per million.
    pub fn set_drop_rate_ppm(&mut self, p: u64)
        requires
            old(self).wf(),
            p <= 1_000_000,
        ensures
            final(self).wf(),
            core_unchanged(*old(self), *final(self)),
            slots_unchanged(*old(self), *final(self)),
            final(self).drop_ppm == p,
            final(self).delay_min == old(self).delay_min,
            final(self).delay_max == old(self).delay_max,
            final(self).dupl_ppm == old(self).dupl_ppm,
            final(self).disabled@ == old(self).disabled@,
    {
        self.drop_ppm = p;
        proof {
            assert(self.slots() =~= old(self).slots());
        }
    }

    /// Sets the message duplication probability, in parts per million.
    pub fn set_dupl_rate_ppm(&mut self, p: u64)
        requires
            old(self).wf(),
            p <= 1_000_000,
        ensures
            final(self).wf(),
            core_unchanged(*old(self), *final(self)),
            slots_unchanged(*old(self), *final(self)),
            final(self).dupl_ppm == p,
            final(self).delay_min == old(self).delay_min,
            final(self).delay_max == old(self).delay_max,
            final(self).drop_ppm == old(self).drop_ppm,
            final(self).disabled@ == old(self).disabled@,
    {
        self.dupl_ppm = p;
        proof {
            assert(self.slots() =~= old(self).slots());
        }
    }

    /// Disables the ordered link from `src` to `dst`: messages on it are
    /// discarded, at send time and at deliver time, until the network is
    /// reset.
    pub fn disable_link(&mut self, src: &str, dst: &str)
        requires
            old(self).wf(),
        ensures
            final(self).wf(),
            core_unchanged(*old(self), *final(self)),
            slots_unchanged(*old(self), *final(self)),
            final(self).delay_min == old(self).delay_min,
            final(self).delay_max == old(self).delay_max,
            final(self).drop_ppm == old(self).drop_ppm,
            final(self).dupl_ppm == old(self).dupl_ppm,
            forall|s: Seq<char>, d: Seq<char>|
                #[trigger] old(self).link_disabled(s, d) ==> final(self).link_disabled(s, d),
            final(self).link_disabled(src@, dst@),
    {
        let ghost pre = self.disabled@;
        self.disabled.push((String::from_str(src), String::from_str(dst)));
        proof {
            assert(self.slots() =~= old(self).slots());
            let n = pre.len() as int;
            assert(self.disabled@[n].0@ == src@ && self.disabled@[n].1@ == dst@);
            assert forall|s: Seq<char>, d: Seq<char>|
                #[trigger] old(self).link_disabled(s, d) implies self.link_disabled(s, d) by {
                let k = choose|k: int|
                    0 <= k < pre.len() && #[trigger] pre[k].0@ == s && pre[k].1@ == d;
                assert(self.disabled@[k].0@ == s && self.disabled@[k].1@ == d);
            }
        }
    }

    /// Disables every link that crosses the two groups, in both
    /// directions: the groups can no longer exchange messages until the
    /// network is reset.
    pub fn make_partition(&mut self, a: &Vec<String>, b: &Vec<String>)
        requires
            old(self).wf(),
        ensures
            final(self).wf(),
            core_unchanged(*old(self), *final(self)),
            slots_unchanged(*old(self), *final(self)),
            final(self).delay_min == old(self).delay_min,
            final(self).delay_max == old(self).delay_max,
            final(self).drop_ppm == old(self).drop_ppm,
            final(self).dupl_ppm == old(self).dupl_ppm,
            forall|s: Seq<char>, d: Seq<char>|
                #[trigger] old(self).link_disabled(s, d) ==> final(self).link_disabled(s, d),
            forall|i: int, j: int|
                0 <= i < a@.len() && 0 <= j < b@.len() ==> #[trigger] final(self).link_disabled(
                    a@[i]@,
                    b@[j]@,
                ) && final(self).link_disabled(b@[j]@, a@[i]@),
    {
        let mut i: usize = 0;
        while i < a.len()
            invariant
                old(self).wf(),
                self.wf(),
                i <= a@.len(),
                core_unchanged(*old(self), *self),
                slots_unchanged(*old(self), *self),
                self.delay_min == old(self).delay_min,
                self.delay_max == old(self).delay_max,
                self.drop_ppm == old(self).drop_ppm,
                self.dupl_ppm == old(self).dupl_ppm,
                forall|s: Seq<char>, d: Seq<char>|
                    #[trigger] old(self).link_disabled(s, d) ==> self.link_disabled(s, d),
                forall|i2: int, j2: int|
                    0 <= i2 < i && 0 <= j2 < b@.len() ==> #[trigger] self.link_disabled(
                        a@[i2]@,
                        b@[j2]@,
                    ) && self.link_disabled(b@[j2]@, a@[i2]@),
            decreases a@.len() - i,
        {
            let mut j: usize = 0;
            while j < b.len()
                invariant
                    old(self).wf(),
                    self.wf(),
                    i < a@.len(),
                    j <= b@.len(),
                    core_unchanged(*old(self), *self),
                    slots_unchanged(*old(self), *self),
                    self.delay_min == old(self).delay_min,
                    self.delay_max == old(self).delay_max,
                    self.drop_ppm == old(self).drop_ppm,
                    self.dupl_ppm == old(self).dupl_ppm,
                    forall|s: Seq<char>, d: Seq<char>|
                        #[trigger] old(self).link_disabled(s, d) ==> self.link_disabled(s, d),
                    forall|i2: int, j2: int|
                        0 <= i2 < i && 0 <= j2 < b@.len() ==> #[trigger] self.link_disabled(
                            a@[i2]@,
                            b@[j2]@,
                        ) && self.link_disabled(b@[j2]@, a@[i2]@),
                    forall|j2: int|
                        0 <= j2 < j ==> #[trigger] self.link_disabled(a@[i as int]@, b@[j2]@)
                            && self.link_disabled(b@[j2]@, a@[i as int]@),
                decreases b@.len() - j,
            {
                let ghost mid = *self;
                self.disable_link(a[i].as_str(), b[j].as_str());
                let ghost mid2 = *self;
                self.disable_link(b[j].as_str(), a[i].as_str());
                proof {
                    assert forall|s: Seq<char>, d: Seq<char>|
                        #[trigger] mid.link_disabled(s, d) implies self.link_disabled(s, d) by {
                        assert(mid2.link_disabled(s, d));
                    }
                    assert forall|i2: int, j2: int|
                        0 <= i2 < i && 0 <= j2 < b@.len() implies #[trigger] self.link_disabled(
                        a@[i2]@,
                        b@[j2]@,
                    ) && self.link_disabled(b@[j2]@, a@[i2]@) by {
                        assert(mid.link_disabled(a@[i2]@, b@[j2]@));
                        assert(mid.link_disabled(b@[j2]@, a@[i2]@));
                    }
                    assert forall|j2: int|
                        0 <= j2 < j implies #[trigger] self.link_disabled(a@[i as int]@, b@[j2]@)
                            && self.link_disabled(b@[j2]@, a@[i as int]@) by {
                        assert(mid.link_disabled(a@[i as int]@, b@[j2]@));
                        assert(mid.link_disabled(b@[j2]@, a@[i as int]@));
                    }
                    assert(mid2.link_disabled(a@[i as int]@, b@[j as int]@));
                    assert(self.link_disabled(a@[i as int]@, b@[j as int]@));
                    assert(self.link_disabled(b@[j as int]@, a@[i as int]@));
                    assert forall|j2: int|
                        0 <= j2 < j + 1 implies #[trigger] self.link_disabled(
                        a@[i as int]@,
                        b@[j2]@,
                    ) && self.link_disabled(b@[j2]@, a@[i as int]@) by {
                        if j2 < j {
                            assert(mid.link_disabled(a@[i as int]@, b@[j2]@));
                            assert(mid.link_disabled(b@[j2]@, a@[i as int]@));
                        } else {
                            assert(j2 == j);
                        }
                    }
                }
                j += 1;
            }
            proof {
                assert forall|i2: int, j2: int|
                    0 <= i2 < i + 1 && 0 <= j2 < b@.len() implies #[trigger] self.link_disabled(
                    a@[i2]@,
                    b@[j2]@,
                ) && self.link_disabled(b@[j2]@, a@[i2]@) by {
                    if i2 == i {
                        assert(self.link_disabled(a@[i as int]@, b@[j2]@));
                        assert(self.link_disabled(b@[j2]@, a@[i as int]@));
                    }
                }
            }
            i += 1;
        }
    }

    /// Clears every partition, disconnect and block: the disabled-link
    /// set becomes empty and every node's connectivity flags are reset.
    /// Crash state and logs are untouched.
    pub fn reset_network(&mut self)
        requires
            old(self).wf(),
        ensures
            final(self).wf(),
            core_unchanged(*old(self), *final(self)),
            final(self).delay_min == old(self).delay_min,
            final(self).delay_max == old(self).delay_max,
            final(self).drop_ppm == old(self).drop_ppm,
            final(self).dupl_ppm == old(self).dupl_ppm,
            final(self).disabled@.len() == 0,
            forall|s: Seq<char>, d: Seq<char>| !final(self).link_disabled(s, d),
            final(self).nodes@.len() == old(self).nodes@.len(),
            forall|j: int|
                0 <= j < old(self).nodes@.len() ==> #[trigger] final(self).slots()[j] == (SlotV {
                    disconnected: false,
                    in_blocked: false,
                    out_blocked: false,
                    ..old(self).slots()[j]
                }),
    {
        self.disabled.clear();
        let mut i: usize = 0;
        while i < self.nodes.len()
            invariant
                old(self).wf(),
                self.wf(),
                i <= self.nodes@.len(),
                core_unchanged(*old(self), *self),
                self.delay_min == old(self).delay_min,
                self.delay_max == old(self).delay_max,
                self.drop_ppm == old(self).drop_ppm,
                self.dupl_ppm == old(self).dupl_ppm,
                self.disabled@.len() == 0,
                self.nodes@.len() == old(self).nodes@.len(),
                forall|j: int|
                    0 <= j < i ==> #[trigger] self.slots()[j] == (SlotV {
                        disconnected: false,
                        in_blocked: false,
                        out_blocked: false,
                        ..old(self).slots()[j]
                    }),
                forall|j: int|
                    i <= j < self.nodes@.len() ==> #[trigger] self.slots()[j] == old(
                        self,
                    ).slots()[j],
            decreases self.nodes@.len() - i,
        {
            let ghost pre = *self;
            self.nodes[i].disconnected = false;
            self.nodes[i].in_blocked = false;
            self.nodes[i].out_blocked = false;
            proof {
                assert(pre.slots()[i as int] == old(self).slots()[i as int]);
                assert forall|j: int|
                    0 <= j < self.nodes@.len() && j != i implies #[trigger] self.slots()[j]
                    == pre.slots()[j] by {}
                assert(self.slots()[i as int] == (SlotV {
                    disconnected: false,
                    in_blocked: false,
                    out_blocked: false,
                    ..pre.slots()[i as int]
                }));
            }
            i += 1;
        }
    }

    /// Whether the ordered link from `src` to `dst` is currently disabled.
    pub fn link_is_disabled(&self, src: &str, dst: &str) -> (r: bool)
        ensures
            r == self.link_disabled(src@, dst@),
    {
        let mut k: usize = 0;
        while k < self.disabled.len()
            invariant
                k <= self.disabled@.len(),
                forall|m: int|
                    0 <= m < k ==> !(#[trigger] self.disabled@[m].0@ == src@
                        && self.disabled@[m].1@ == dst@),
            decreases self.disabled@.len() - k,
        {
            if str_eq(self.disabled[k].0.as_str(), src) && str_eq(self.disabled[k].1.as_str(), dst) {
                return true;
            }
            k += 1;
        }
        false
    }

    /// Draws the delivery delay for one message copy: the pinned constant
    /// when the range is degenerate, else uniform over the closed range.
    fn draw_delay(&mut self) -> (d: u64)
        requires
            old(self).wf(),
        ensures
            final(self).wf(),
            old(self).delay_min <= d <= old(self).delay_max,
            final(self).now == old(self).now,
            final(self).queue == old(self).queue,
            final(self).nodes@ == old(self).nodes@,
            final(self).disabled@ == old(self).disabled@,
            final(self).delay_min == old(self).delay_min,
            final(self).delay_max == old(self).delay_max,
            final(self).drop_ppm == old(self).drop_ppm,
            final(self).dupl_ppm == old(self).dupl_ppm,
            final(self).msg_count == old(self).msg_count,
            final(self).traffic == old(self).traffic,
    {
        let d = if self.delay_min == self.delay_max {
            self.delay_min
        } else {
            self.rng.gen_range(self.delay_min, self.delay_max + 1)
        };
        proof {
            assert(self.slots() =~= old(self).slots());
        }
        d
    }

    /// Enqueues one delivery of `msg` to the node at `di` after `delay`,
    /// charging the message and traffic counters and the sender's counter.
    fn enqueue_deliver(&mut self, si: usize, di: usize, msg: Message, delay: u64)
        requires
            old(self).wf(),
            si < old(self).nodes@.len(),
            di < old(self).nodes@.len(),
            delay <= MAX_DELAY,
        ensures
            final(self).wf(),
            final(self).now == old(self).now,
            final(self).rng == old(self).rng,
            final(self).disabled@ == old(self).disabled@,
            final(self).delay_min == old(self).delay_min,
            final(self).delay_max == old(self).delay_max,
            final(self).drop_ppm == old(self).drop_ppm,
            final(self).dupl_ppm == old(self).dupl_ppm,
            final(self).msg_count == clip64(old(self).msg_count + 1),
            final(self).traffic == clip64(old(self).traffic + clip64(wire_len(msg@))),
            final(self).nodes@.len() == old(self).nodes@.len(),
            forall|j: int|
                0 <= j < old(self).nodes@.len() && j != si ==> #[trigger] final(self).slots()[j]
                    == old(self).slots()[j],
            final(self).slots()[si as int] == (SlotV {
                sent_cnt: clip64(old(self).slots()[si as int].sent_cnt + 1) as u64,
                ..old(self).slots()[si as int]
            }),
            old(self).queue.next_seq < u64::MAX ==> final(self).queue@ == old(self).queue@.push(
                (PendingEventV {
                    time: clip64(old(self).now + delay) as u64,
                    seq: old(self).queue.next_seq,
                    kind: EvKindV::Deliver {
                        src: old(self).slots()[si as int].id,
                        dst: old(self).slots()[di as int].id,
                        msg: msg@,
                    },
                }),
            ),
            old(self).queue.next_seq == u64::MAX ==> final(self).queue@ == old(self).queue@,
            final(self).queue.next_seq >= old(self).queue.next_seq,
            no_reissue(*old(self), *final(self)),
    {
        let t = sat_add64(self.now, delay);
        let src_id = self.nodes[si].id.clone();
        let dst_id = self.nodes[di].id.clone();
        let sz = wire_size(&msg);
        let ghost msgv = msg@;
        self.queue.push(t, EvKind::Deliver { src: src_id, dst: dst_id, msg });
        self.msg_count = sat_add64(self.msg_count, 1);
        self.traffic = sat_add64(self.traffic, sz);
        let c = self.nodes[si].sent_cnt;
        let ghost pre = *self;
        self.nodes[si].sent_cnt = sat_add64(c, 1);
        proof {
            assert(forall|j: int|
                0 <= j < self.nodes@.len() && j != si ==> #[trigger] self.slots()[j]
                    == pre.slots()[j]);
            assert(pre.slots() =~= old(self).slots());
            assert(self.slots()[si as int] == (SlotV {
                sent_cnt: clip64(old(self).slots()[si as int].sent_cnt + 1) as u64,
                ..old(self).slots()[si as int]
            }));
            assert forall|m: int|
                0 <= m < self.queue@.len() && (#[trigger] self.queue@[m]).seq < old(
                    self,
                ).queue.next_seq implies exists|m2: int|
                0 <= m2 < old(self).queue@.len() && (#[trigger] old(self).queue@[m2]).seq
                    == self.queue@[m].seq by {
                if m < old(self).queue@.len() {
                    assert(old(self).queue@[m].seq == self.queue@[m].seq);
                }
            }
        }
    }

    /// Routes one outbound message from the node at `si` to the node named
    /// `dst`, performing the send-time decision sequence: discard silently
    /// if the envelope is blocked (crash, block, disconnect, disabled
    /// link); then flip the drop coin; then enqueue one copy with a drawn
    /// delay, and with the duplicate coin a second, independently delayed
    /// copy. Discarded messages are not counted; each enqueued copy counts
    /// once.
    fn route_send(&mut self, si: usize, dst: &str, msg: Message)
        requires
            old(self).wf(),
            si < old(self).nodes@.len(),
        ensures
            final(self).wf(),
            final(self).now == old(self).now,
            final(self).disabled@ == old(self).disabled@,
            final(self).delay_min == old(self).delay_min,
            final(self).delay_max == old(self).delay_max,
            final(self).drop_ppm == old(self).drop_ppm,
            final(self).dupl_ppm == old(self).dupl_ppm,
            final(self).nodes@.len() == old(self).nodes@.len(),
            forall|j: int|
                0 <= j < old(self).nodes@.len() && j != si ==> #[trigger] final(self).slots()[j]
                    == old(self).slots()[j],
            final(self).slots()[si as int] == (SlotV {
                sent_cnt: final(self).slots()[si as int].sent_cnt,
                ..old(self).slots()[si as int]
            }),
            final(self).slots()[si as int].sent_cnt >= old(self).slots()[si as int].sent_cnt,
            old(self).queue@.is_prefix_of(final(self).queue@),
            final(self).queue@.len() <= old(self).queue@.len() + 2,
            forall|k: int|
                old(self).queue@.len() <= k < final(self).queue@.len() ==> ((
                #[trigger] final(self).queue@[k]).kind matches EvKindV::Deliver {
                    src,
                    dst: d,
                    msg: m,
                } && src == old(self).slots()[si as int].id && d == dst@ && m == msg@),
            forall|k: int|
                old(self).queue@.len() <= k < final(self).queue@.len()
                    ==> (#[trigger] final(self).queue@[k]).time >= old(self).now && (
                #[trigger] final(self).queue@[k]).seq >= old(self).queue.next_seq,
            final(self).queue.next_seq >= old(self).queue.next_seq,
            !old(self).has_id(dst@) ==> final(self).queue@ == old(self).queue@ && final(self).rng
                == old(self).rng && final(self).slots() == old(self).slots() && final(self).msg_count == old(self).msg_count
                && final(self).traffic == old(self).traffic,
            old(self).has_id(dst@) && !old(self).send_allowed(si as int, old(self).idx_of(dst@))
                ==> final(self).queue@ == old(self).queue@ && final(self).rng == old(self).rng
                && final(self).slots() == old(self).slots() && final(self).msg_count == old(self).msg_count
                && final(self).traffic == old(self).traffic,
            old(self).has_id(dst@) && old(self).send_allowed(si as int, old(self).idx_of(dst@))
                && old(self).drop_ppm == 0 && old(self).dupl_ppm == 0 && old(self).queue.next_seq
                < u64::MAX ==> final(self).queue@.len() == old(self).queue@.len() + 1,
    {
        let di = match self.find_node(dst) {
            Option::None => {
                proof {
                    assert(self.slots() =~= old(self).slots());
                }
                return ;
            },
            Option::Some(d) => d,
        };
        proof {
            lemma_idx_of(*self, di as int);
            assert(self.slots()[di as int].id == dst@);
            assert(self.idx_of(dst@) == di as int);
            assert(self.slots()[si as int].crashed == self.nodes@[si as int].crashed);
            assert(self.slots()[si as int].out_blocked == self.nodes@[si as int].out_blocked);
            assert(self.slots()[si as int].disconnected == self.nodes@[si as int].disconnected);
            assert(self.slots()[di as int].in_blocked == self.nodes@[di as int].in_blocked);
            assert(self.slots()[di as int].disconnected == self.nodes@[di as int].disconnected);
            assert(self.slots()[si as int].id == self.nodes@[si as int].id@);
            assert(self.ids()[si as int] == self.nodes@[si as int].id@);
            assert(self.ids()[di as int] == self.nodes@[di as int].id@);
        }
        let blocked = self.nodes[si].crashed || self.nodes[si].out_blocked
            || self.nodes[si].disconnected || self.nodes[di].in_blocked
            || self.nodes[di].disconnected;
        if blocked {
            proof {
                assert(self.slots() =~= old(self).slots());
            }
            return ;
        }
        let src_id = self.nodes[si].id.clone();
        if self.link_is_disabled(src_id.as_str(), dst) {
            proof {
                assert(self.slots() =~= old(self).slots());
                assert(!old(self).send_allowed(si as int, di as int));
            }
            return ;
        }
        proof {
            assert(old(self).send_allowed(si as int, di as int));
        }
        let drop_p = self.drop_ppm;
        if self.rng.coin_ppm(drop_p) {
            proof {
                assert(self.slots() =~= old(self).slots());
            }
            return ;
        }
        let ghost s1 = *self;
        proof {
            assert(s1.slots() =~= old(self).slots());
        }
        let d1 = self.draw_delay();
        let ghost s2 = *self;
        let copy = dup_message(&msg);
        self.enqueue_deliver(si, di, copy, d1);
        let ghost s3 = *self;
        proof {
            assert(s2.slots() =~= old(self).slots());
            assert(s3.queue@.len() <= old(self).queue@.len() + 1);
            assert(old(self).queue@.is_prefix_of(s3.queue@));
        }
        let dupl_p = self.dupl_ppm;
        if self.rng.coin_ppm(dupl_p) {
            let d2 = self.draw_delay();
            let ghost s4 = *self;
            proof {
                assert(s4.slots() =~= s3.slots());
                assert(s4.queue@ == s3.queue@);
            }
            self.enqueue_deliver(si, di, msg, d2);
            proof {
                assert(forall|j: int|
                    0 <= j < old(self).nodes@.len() && j != si ==> #[trigger] self.slots()[j]
                        == old(self).slots()[j]);
            }
        }
    }

    /// Installs a timer on the node at index `i`: any pending firing of
    /// the same timer name on that node is cancelled (the timer is
    /// replaced), and, while the sequence counter lasts, exactly one
    /// firing is pending afterwards, scheduled after the given delay
    /// (capped at the engine's delay bound).
    fn set_timer(&mut self, i: usize, name: String, d: u64)
        requires
            old(self).wf(),
            i < old(self).nodes@.len(),
        ensures
            final(self).wf(),
            final(self).now == old(self).now,
            final(self).rng == old(self).rng,
            final(self).disabled@ == old(self).disabled@,
            final(self).delay_min == old(self).delay_min,
            final(self).delay_max == old(self).delay_max,
            final(self).drop_ppm == old(self).drop_ppm,
            final(self).dupl_ppm == old(self).dupl_ppm,
            final(self).msg_count == old(self).msg_count,
            final(self).traffic == old(self).traffic,
            final(self).slots() == old(self).slots(),
            old(self).queue.next_seq < u64::MAX ==> final(self).queue@ == without_timers(
                old(self).queue@,
                old(self).slots()[i as int].id,
                name@,
            ).push(
                (PendingEventV {
                    time: clip64(old(self).now + (if d > MAX_DELAY {
                        MAX_DELAY as int
                    } else {
                        d as int
                    })) as u64,
                    seq: old(self).queue.next_seq,
                    kind: EvKindV::Timer { node: old(self).slots()[i as int].id, name: name@ },
                }),
            ),
            old(self).queue.next_seq == u64::MAX ==> final(self).queue@ == without_timers(
                old(self).queue@,
                old(self).slots()[i as int].id,
                name@,
            ),
            old(self).queue.next_seq < u64::MAX ==> timer_count(
                final(self).queue@,
                old(self).slots()[i as int].id,
                name@,
            ) == 1,
            old(self).queue.next_seq < u64::MAX ==> forall|k: int|
                0 <= k < final(self).queue@.len() && is_timer_for(
                    #[trigger] final(self).queue@[k],
                    old(self).slots()[i as int].id,
                    name@,
                ) ==> final(self).queue@[k].time == clip64(
                    old(self).now + (if d > MAX_DELAY {
                        MAX_DELAY as int
                    } else {
                        d as int
                    }),
                ),
            no_reissue(*old(self), *final(self)),
    {
        let node_id = self.nodes[i].id.clone();
        proof {
            assert(node_id@ == old(self).slots()[i as int].id);
        }
        let ghost nid = node_id@;
        let ghost nm = name@;
        let ghost qpre = self.queue@;
        self.queue.cancel_timers(node_id.as_str(), name.as_str());
        proof {
            crate::event::lemma_without_timers_membership(qpre, nid, nm);
            assert(forall|k: int|
                0 <= k < self.queue@.len() ==> (#[trigger] self.queue@[k]).time >= self.now);
            crate::event::lemma_without_timers_none(qpre, nid, nm);
            assert(self.slots() =~= old(self).slots());
        }
        let dd = if d > MAX_DELAY {
            MAX_DELAY
        } else {
            d
        };
        let t = sat_add64(self.now, dd);
        let ghost qmid = self.queue@;
        let ghost seq_pre = self.queue.next_seq;
        self.queue.push(t, EvKind::Timer { node: node_id, name });
        proof {
            assert(self.slots() =~= old(self).slots());
            if seq_pre < u64::MAX {
                assert(self.queue@ == qmid.push(
                    (PendingEventV {
                        time: t,
                        seq: seq_pre,
                        kind: EvKindV::Timer { node: nid, name: nm },
                    }),
                ));
                assert(is_timer_for(self.queue@.last(), nid, nm));
                assert(self.queue@.drop_last() =~= qmid);
                crate::event::lemma_timer_count_from_none(qmid, nid, nm);
                assert(timer_count(self.queue@, nid, nm) == 1);
                assert forall|k: int|
                    0 <= k < self.queue@.len() && is_timer_for(
                        #[trigger] self.queue@[k],
                        nid,
                        nm,
                    ) implies self.queue@[k].time == t by {
                    if k < qmid.len() {
                        assert(self.queue@[k] == qmid[k]);
                        assert(!is_timer_for(qmid[k], nid, nm));
                    }
                }
            }
            crate::event::lemma_without_timers_membership(qpre, nid, nm);
            assert forall|m: int|
                0 <= m < self.queue@.len() && (#[trigger] self.queue@[m]).seq < old(
                    self,
                ).queue.next_seq implies exists|m2: int|
                0 <= m2 < old(self).queue@.len() && (#[trigger] old(self).queue@[m2]).seq
                    == self.queue@[m].seq by {
                assert(m < qmid.len());
                let j = choose|j: int|
                    0 <= j < qpre.len() && #[trigger] without_timers(qpre, nid, nm)[m] == qpre[j];
                assert(old(self).queue@[j].seq == self.queue@[m].seq);
            }
        }
    }

    /// Cancels every pending firing of the named timer on the node at
    /// index `i`.
    fn cancel_timer(&mut self, i: usize, name: &str)
        requires
            old(self).wf(),
            i < old(self).nodes@.len(),
        ensures
            final(self).wf(),
            final(self).now == old(self).now,
            final(self).rng == old(self).rng,
            final(self).disabled@ == old(self).disabled@,
            final(self).delay_min == old(self).delay_min,
            final(self).delay_max == old(self).delay_max,
            final(self).drop_ppm == old(self).drop_ppm,
            final(self).dupl_ppm == old(self).dupl_ppm,
            final(self).msg_count == old(self).msg_count,
            final(self).traffic == old(self).traffic,
            final(self).slots() == old(self).slots(),
            final(self).queue@ == without_timers(
                old(self).queue@,
                old(self).slots()[i as int].id,
                name@,
            ),
            no_reissue(*old(self), *final(self)),
    {
        let node_id = self.nodes[i].id.clone();
        proof {
            assert(node_id@ == old(self).slots()[i as int].id);
        }
        let ghost qpre = self.queue@;
        self.queue.cancel_timers(node_id.as_str(), name);
        proof {
            crate::event::lemma_without_timers_membership(qpre, node_id@, name@);
            assert(forall|k: int|
                0 <= k < self.queue@.len() ==> (#[trigger] self.queue@[k]).time >= self.now);
            assert(self.slots() =~= old(self).slots());
            assert forall|m: int|
                0 <= m < self.queue@.len() && (#[trigger] self.queue@[m]).seq < old(
                    self,
                ).queue.next_seq implies exists|m2: int|
                0 <= m2 < old(self).queue@.len() && (#[trigger] old(self).queue@[m2]).seq
                    == self.queue@[m].seq by {
                let j = choose|j: int|
                    0 <= j < qpre.len() && #[trigger] without_timers(qpre, node_id@, name@)[m]
                        == qpre[j];
                assert(old(self).queue@[j].seq == self.queue@[m].seq);
            }
        }
    }

    /// The local time the node at index `i` observes: the engine clock
    /// plus the node's skew.
    fn local_time(&self, i: usize) -> (t: u64)
        requires
            i < self.nodes@.len(),
        ensures
            t == clip64(self.now + self.slots()[i as int].skew),
    {
        proof {
            assert(self.slots()[i as int].skew == self.nodes@[i as int].skew);
        }
        sat_add64(self.now, self.nodes[i].skew)
    }

    /// Applies the batch of emissions one handler invocation on the node
    /// at index `i` returned: appends its local outputs to its log, routes
    /// its outbound messages, cancels and installs its timers, and ticks
    /// the memory probe.
    fn apply_actions(&mut self, i: usize, acts: Actions)
        requires
            old(self).wf(),
            i < old(self).nodes@.len(),
        ensures
            final(self).wf(),
            handler_frame(*old(self), *final(self), i as int),
            final(self).slots()[i as int].handler_calls == clip64(
                old(self).slots()[i as int].handler_calls + 1,
            ),
            no_reissue(*old(self), *final(self)),
    {
        let ghost o = *old(self);
        // memory probe: every probe_freq handler invocations, record the
        // node's footprint and keep the maximum
        let calls = sat_add64(self.nodes[i].handler_calls, 1);
        self.nodes[i].handler_calls = calls;
        let freq = self.nodes[i].probe_freq;
        if freq > 0 && calls % freq == 0 {
            let sz = self.nodes[i].node.memory_size();
            if sz > self.nodes[i].max_size {
                self.nodes[i].max_size = sz;
            }
        }
        proof {
            assert(forall|j: int|
                0 <= j < self.nodes@.len() && j != i ==> #[trigger] self.slots()[j] == o.slots()[j]);
            assert(self.slots()[i as int].log =~= o.slots()[i as int].log);
            assert(o.slots()[i as int].log =~= self.slots()[i as int].log.take(
                o.slots()[i as int].log.len() as int,
            ));
            assert(handler_frame(o, *self, i as int));
            assert(self.slots()[i as int].handler_calls == clip64(
                o.slots()[i as int].handler_calls + 1,
            ));
            lemma_no_reissue_eq(o, *self);
        }
        let t = self.local_time(i);
        // local outputs
        let mut k: usize = 0;
        while k < acts.locals.len()
            invariant
                self.wf(),
                handler_frame(o, *self, i as int),
                o.nodes@.len() == self.nodes@.len(),
                i < o.nodes@.len(),
                self.slots()[i as int].handler_calls == clip64(
                    o.slots()[i as int].handler_calls + 1,
                ),
                no_reissue(o, *self),
                k <= acts.locals@.len(),
            decreases acts.locals@.len() - k,
        {
            let ghost pre = *self;
            let m = dup_message(&acts.locals[k]);
            let entry = LocalEvent { kind: LocalKind::Output, time: t, msg: m };
            let ghost entryv = entry@;
            self.nodes[i].log.push(entry);
            proof {
                assert(forall|j: int|
                    0 <= j < self.nodes@.len() && j != i ==> #[trigger] self.slots()[j]
                        == pre.slots()[j]);
                assert(self.slots()[i as int].log =~= pre.slots()[i as int].log.push(entryv));
                assert(pre.slots()[i as int].log =~= self.slots()[i as int].log.take(
                    pre.slots()[i as int].log.len() as int,
                ));
                assert(handler_frame(pre, *self, i as int));
                lemma_handler_frame_trans(o, pre, *self, i as int);
                assert(self.slots()[i as int].handler_calls == pre.slots()[i
                    as int].handler_calls);
                lemma_no_reissue_eq(pre, *self);
                lemma_no_reissue_trans(o, pre, *self);
            }
            k += 1;
        }
        // outbound messages
        let mut k2: usize = 0;
        while k2 < acts.sends.len()
            invariant
                self.wf(),
                handler_frame(o, *self, i as int),
                o.nodes@.len() == self.nodes@.len(),
                i < o.nodes@.len(),
                self.slots()[i as int].handler_calls == clip64(
                    o.slots()[i as int].handler_calls + 1,
                ),
                no_reissue(o, *self),
                k2 <= acts.sends@.len(),
            decreases acts.sends@.len() - k2,
        {
            let ghost pre = *self;
            let dst = acts.sends[k2].0.clone();
            let m = dup_message(&acts.sends[k2].1);
            self.route_send(i, dst.as_str(), m);
            proof {
                assert(self.slots()[i as int].log == pre.slots()[i as int].log);
                assert(pre.slots()[i as int].log =~= self.slots()[i as int].log.take(
                    pre.slots()[i as int].log.len() as int,
                ));
                assert(handler_frame(pre, *self, i as int));
                lemma_handler_frame_trans(o, pre, *self, i as int);
                assert(self.slots()[i as int].handler_calls == pre.slots()[i
                    as int].handler_calls);
                lemma_no_reissue_from_append(pre, *self);
                lemma_no_reissue_trans(o, pre, *self);
            }
            k2 += 1;
        }
        // timer cancellations
        let mut k3: usize = 0;
        while k3 < acts.cancels.len()
            invariant
                self.wf(),
                handler_frame(o, *self, i as int),
                o.nodes@.len() == self.nodes@.len(),
                i < o.nodes@.len(),
                self.slots()[i as int].handler_calls == clip64(
                    o.slots()[i as int].handler_calls + 1,
                ),
                no_reissue(o, *self),
                k3 <= acts.cancels@.len(),
            decreases acts.cancels@.len() - k3,
        {
            let ghost pre = *self;
            self.cancel_timer(i, acts.cancels[k3].as_str());
            proof {
                lemma_handler_frame_refl(pre, i as int);
                assert(self.slots().len() == self.nodes@.len());
                assert(pre.slots().len() == pre.nodes@.len());
                assert(handler_frame(pre, *self, i as int));
                lemma_handler_frame_trans(o, pre, *self, i as int);
                lemma_no_reissue_trans(o, pre, *self);
            }
            k3 += 1;
        }
        // timer installations
        let mut k4: usize = 0;
        while k4 < acts.timers.len()
            invariant
                self.wf(),
                handler_frame(o, *self, i as int),
                o.nodes@.len() == self.nodes@.len(),
                i < o.nodes@.len(),
                self.slots()[i as int].handler_calls == clip64(
                    o.slots()[i as int].handler_calls + 1,
                ),
                no_reissue(o, *self),
                k4 <= acts.timers@.len(),
            decreases acts.timers@.len() - k4,
        {
            let ghost pre = *self;
            let name = acts.timers[k4].0.clone();
            let d = acts.timers[k4].1;
            self.set_timer(i, name, d);
            proof {
                lemma_handler_frame_refl(pre, i as int);
                assert(self.slots().len() == self.nodes@.len());
                assert(pre.slots().len() == pre.nodes@.len());
                assert(handler_frame(pre, *self, i as int));
                lemma_handler_frame_trans(o, pre, *self, i as int);
                lemma_no_reissue_trans(o, pre, *self);
            }
            k4 += 1;
        }
    }

    /// Dispatches a popped network delivery: rechecks connectivity at
    /// deliver time (late disconnects are honored), and, if the message
    /// passes, counts it received and invokes the destination's handler.
    fn dispatch_deliver(&mut self, src: String, dst: String, msg: Message)
        requires
            old(self).wf(),
        ensures
            final(self).wf(),
            run_frame(*old(self), *final(self)),
            final(self).now == old(self).now,
            no_reissue(*old(self), *final(self)),
            old(self).has_id(dst@) && old(self).deliver_allowed(src@, old(self).idx_of(dst@))
                ==> final(self).slots()[old(self).idx_of(dst@)].recv_cnt == clip64(
                old(self).slots()[old(self).idx_of(dst@)].recv_cnt + 1,
            ),
    {
        let ghost o = *old(self);
        let di = match self.find_node(dst.as_str()) {
            Option::None => {
                proof {
                    lemma_run_frame_refl(o);
                    lemma_no_reissue_eq(o, *self);
                }
                return ;
            },
            Option::Some(d) => d,
        };
        proof {
            lemma_idx_of(*self, di as int);
            assert(self.slots()[di as int].id == dst@);
            assert(self.idx_of(dst@) == di as int);
            assert(self.slots()[di as int].crashed == self.nodes@[di as int].crashed);
            assert(self.slots()[di as int].in_blocked == self.nodes@[di as int].in_blocked);
            assert(self.slots()[di as int].disconnected == self.nodes@[di as int].disconnected);
            assert(self.ids()[di as int] == self.nodes@[di as int].id@);
        }
        if self.nodes[di].crashed || self.nodes[di].in_blocked || self.nodes[di].disconnected {
            proof {
                lemma_run_frame_refl(o);
                lemma_no_reissue_eq(o, *self);
                assert(!o.deliver_allowed(src@, di as int));
            }
            return ;
        }
        let dst_id = self.nodes[di].id.clone();
        if self.link_is_disabled(src.as_str(), dst_id.as_str()) {
            proof {
                lemma_run_frame_refl(o);
                lemma_no_reissue_eq(o, *self);
                assert(!o.deliver_allowed(src@, di as int));
            }
            return ;
        }
        proof {
            assert(o.deliver_allowed(src@, di as int));
        }
        let c = self.nodes[di].recv_cnt;
        self.nodes[di].recv_cnt = sat_add64(c, 1);
        let ghost s1 = *self;
        proof {
            assert(forall|j: int|
                0 <= j < self.nodes@.len() && j != di ==> #[trigger] s1.slots()[j] == o.slots()[j]);
            assert(s1.slots()[di as int] == (SlotV {
                recv_cnt: clip64(o.slots()[di as int].recv_cnt + 1) as u64,
                ..o.slots()[di as int]
            }));
            assert forall|j: int| 0 <= j < o.nodes@.len() implies (
            #[trigger] o.slots()[j]).log.is_prefix_of(s1.slots()[j].log) by {
                assert(o.slots()[j].log =~= o.slots()[j].log.take(o.slots()[j].log.len() as int));
            }
            assert(run_frame(o, s1));
            lemma_no_reissue_eq(o, s1);
        }
        let t = self.local_time(di);
        let acts = self.nodes[di].node.on_message(src, msg, t);
        let ghost s2 = *self;
        proof {
            assert(s2.slots() =~= s1.slots());
            lemma_run_frame_refl(s1);
            assert(run_frame(s1, s2));
            lemma_run_frame_trans(o, s1, s2);
            lemma_no_reissue_eq(s1, s2);
            lemma_no_reissue_trans(o, s1, s2);
        }
        self.apply_actions(di, acts);
        proof {
            lemma_handler_frame_run(s2, *self, di as int);
            lemma_run_frame_trans(o, s2, *self);
            lemma_no_reissue_trans(o, s2, *self);
            assert(self.slots()[di as int].recv_cnt == s2.slots()[di as int].recv_cnt);
            assert(self.slots()[di as int].recv_cnt == clip64(
                o.slots()[di as int].recv_cnt + 1,
            ));
        }
    }

    /// Dispatches a popped timer firing: invokes the node's timer handler
    /// unless the node has crashed or is gone.
    fn dispatch_timer(&mut self, node: String, name: String)
        requires
            old(self).wf(),
        ensures
            final(self).wf(),
            run_frame(*old(self), *final(self)),
            final(self).now == old(self).now,
            no_reissue(*old(self), *final(self)),
            old(self).has_id(node@) && !old(self).slots()[old(self).idx_of(node@)].crashed
                ==> final(self).slots()[old(self).idx_of(node@)].handler_calls == clip64(
                old(self).slots()[old(self).idx_of(node@)].handler_calls + 1,
            ),
    {
        let ghost o = *old(self);
        let di = match self.find_node(node.as_str()) {
            Option::None => {
                proof {
                    lemma_run_frame_refl(o);
                    lemma_no_reissue_eq(o, *self);
                }
                return ;
            },
            Option::Some(d) => d,
        };
        proof {
            lemma_idx_of(*self, di as int);
            assert(self.slots()[di as int].id == node@);
            assert(self.idx_of(node@) == di as int);
            assert(self.slots()[di as int].crashed == self.nodes@[di as int].crashed);
        }
        if self.nodes[di].crashed {
            proof {
                lemma_run_frame_refl(o);
                lemma_no_reissue_eq(o, *self);
            }
            return ;
        }
        let t = self.local_time(di);
        let acts = self.nodes[di].node.on_timer(name, t);
        let ghost s1 = *self;
        proof {
            assert(s1.slots() =~= o.slots());
            lemma_run_frame_refl(o);
            assert(run_frame(o, s1));
        }
        self.apply_actions(di, acts);
        proof {
            lemma_handler_frame_run(s1, *self, di as int);
            lemma_run_frame_trans(o, s1, *self);
            lemma_no_reissue_eq(o, s1);
            lemma_no_reissue_trans(o, s1, *self);
            assert(self.slots()[di as int].handler_calls == clip64(
                s1.slots()[di as int].handler_calls + 1,
            ));
            assert(s1.slots()[di as int].handler_calls == o.slots()[di as int].handler_calls);
        }
    }

    /// Pops and dispatches the pending event with the least
    /// `(deliver_at, sequence)` key, advancing the clock to its time.
    /// Returns false (and changes nothing) when the queue is empty.
    pub fn step(&mut self) -> (r: bool)
        requires
            old(self).wf(),
        ensures
            final(self).wf(),
            r == (old(self).queue@.len() > 0),
            !r ==> final(self).slots() == old(self).slots() && final(self).queue@ == old(
                self,
            ).queue@ && final(self).rng == old(self).rng && final(self).now == old(self).now
                && final(self).msg_count == old(self).msg_count && final(self).traffic == old(
                self,
            ).traffic && net_config_unchanged(*old(self), *final(self)),
            r ==> run_frame(*old(self), *final(self)),
            no_reissue(*old(self), *final(self)),
            r ==> exists|k: int|
                0 <= k < old(self).queue@.len() && final(self).now == (
                #[trigger] old(self).queue@[k]).time && (forall|j: int|
                    0 <= j < old(self).queue@.len() && j != k ==> key_lt(
                        old(self).queue@[k],
                        #[trigger] old(self).queue@[j],
                    )) && (forall|m: int|
                    0 <= m < final(self).queue@.len() ==> (#[trigger] final(self).queue@[m]).seq
                        != old(self).queue@[k].seq) && dispatch_effect(
                    *old(self),
                    *final(self),
                    old(self).queue@[k],
                ),
    {
        let ghost o = *old(self);
        let popped = self.queue.pop_min();
        match popped {
            Option::None => {
                proof {
                    assert(self.slots() =~= o.slots());
                    lemma_no_reissue_eq(o, *self);
                }
                false
            },
            Option::Some(ev) => {
                let ghost k = choose|k: int|
                    0 <= k < o.queue@.len() && o.queue@[k] == ev@ && self.queue@ == o.queue@.remove(
                        k,
                    ) && (forall|j: int|
                        0 <= j < o.queue@.len() && j != k ==> key_lt(ev@, o.queue@[j]));
                proof {
                    assert(o.queue@[k].time >= o.now);
                }
                self.now = ev.time;
                proof {
                    assert forall|m: int| 0 <= m < self.queue@.len() implies (
                    #[trigger] self.queue@[m]).time >= self.now by {
                        let idx = if m < k {
                            m
                        } else {
                            m + 1
                        };
                        assert(self.queue@[m] == o.queue@[idx]);
                        assert(key_lt(ev@, o.queue@[idx]));
                    }
                    assert(self.slots() =~= o.slots());
                }
                let ghost s1 = *self;
                let ghost s = o.queue@[k].seq;
                proof {
                    assert forall|j: int| 0 <= j < o.nodes@.len() implies (
                    #[trigger] o.slots()[j]).log.is_prefix_of(s1.slots()[j].log) by {
                        assert(o.slots()[j].log =~= o.slots()[j].log.take(
                            o.slots()[j].log.len() as int,
                        ));
                    }
                    assert(run_frame(o, s1));
                    // the popped event left the queue, and its number was
                    // already assigned
                    assert(s < o.queue.next_seq);
                    assert(s1.queue.next_seq == o.queue.next_seq);
                    assert forall|m: int| 0 <= m < s1.queue@.len() implies (
                    #[trigger] s1.queue@[m]).seq != s by {
                        let idx = if m < k {
                            m
                        } else {
                            m + 1
                        };
                        assert(s1.queue@[m] == o.queue@[idx]);
                    }
                    assert forall|m: int|
                        0 <= m < s1.queue@.len() && (#[trigger] s1.queue@[m]).seq
                            < o.queue.next_seq implies exists|m2: int|
                        0 <= m2 < o.queue@.len() && (#[trigger] o.queue@[m2]).seq
                            == s1.queue@[m].seq by {
                        let idx = if m < k {
                            m
                        } else {
                            m + 1
                        };
                        assert(o.queue@[idx].seq == s1.queue@[m].seq);
                    }
                    assert(no_reissue(o, s1));
                    // deliver-time and liveness checks read the same node
                    // table before and after the pop
                    assert(s1.slots() =~= o.slots());
                    assert(s1.disabled@ == o.disabled@);
                }
                match ev.kind {
                    EvKind::Deliver { src, dst, msg } => {
                        let ghost srcv = src@;
                        let ghost dstv = dst@;
                        self.dispatch_deliver(src, dst, msg);
                        proof {
                            if s1.has_id(dstv) {
                                let i1 = s1.idx_of(dstv);
                                assert(0 <= i1 < s1.nodes@.len() && s1.slots()[i1].id == dstv);
                                assert(o.slots()[i1].id == dstv);
                                assert(o.has_id(dstv));
                                lemma_idx_of(o, i1);
                                assert(o.idx_of(dstv) == i1);
                            }
                            if o.has_id(dstv) {
                                let i0 = o.idx_of(dstv);
                                assert(0 <= i0 < o.nodes@.len() && o.slots()[i0].id == dstv);
                                assert(s1.slots()[i0].id == dstv);
                                assert(s1.has_id(dstv));
                                lemma_idx_of(s1, i0);
                                assert(s1.idx_of(dstv) == i0);
                                assert(s1.deliver_allowed(srcv, i0) == o.deliver_allowed(
                                    srcv,
                                    i0,
                                ));
                            }
                            assert(dispatch_effect(o, *self, o.queue@[k]));
                        }
                    },
                    EvKind::Timer { node, name } => {
                        let ghost nodev = node@;
                        self.dispatch_timer(node, name);
                        proof {
                            if s1.has_id(nodev) {
                                let i1 = s1.idx_of(nodev);
                                assert(0 <= i1 < s1.nodes@.len() && s1.slots()[i1].id == nodev);
                                assert(o.slots()[i1].id == nodev);
                                assert(o.has_id(nodev));
                                lemma_idx_of(o, i1);
                                assert(o.idx_of(nodev) == i1);
                            }
                            if o.has_id(nodev) {
                                let i0 = o.idx_of(nodev);
                                assert(0 <= i0 < o.nodes@.len() && o.slots()[i0].id == nodev);
                                assert(s1.slots()[i0].id == nodev);
                                assert(s1.has_id(nodev));
                                lemma_idx_of(s1, i0);
                                assert(s1.idx_of(nodev) == i0);
                            }
                            assert(dispatch_effect(o, *self, o.queue@[k]));
                        }
                    },
                }
                proof {
                    lemma_run_frame_trans(o, s1, *self);
                    lemma_no_reissue_trans(o, s1, *self);
                    assert(o.queue@[k].time == ev@.time);
                    assert forall|m: int| 0 <= m < self.queue@.len() implies (
                    #[trigger] self.queue@[m]).seq != s by {
                        if self.queue@[m].seq == s {
                            assert(self.queue@[m].seq < s1.queue.next_seq);
                            let m2 = choose|m2: int|
                                0 <= m2 < s1.queue@.len() && (#[trigger] s1.queue@[m2]).seq
                                    == self.queue@[m].seq;
                            assert(false);
                        }
                    }
                }
                true
            },
        }
    }

    /// Runs up to `n` steps, stopping early at quiescence.
    pub fn steps(&mut self, n: u64)
        requires
            old(self).wf(),
        ensures
            final(self).wf(),
            run_frame(*old(self), *final(self)),
    {
        let ghost o = *old(self);
        proof {
            lemma_run_frame_refl(o);
        }
        let mut c: u64 = 0;
        while c < n
            invariant
                o == *old(self),
                self.wf(),
                run_frame(o, *self),
            decreases n - c,
        {
            let ghost pre = *self;
            let went = self.step();
            proof {
                if went {
                    lemma_run_frame_trans(o, pre, *self);
                } else {
                    lemma_run_frame_refl(pre);
                    assert(self.slots().len() == self.nodes@.len());
                    assert(pre.slots().len() == pre.nodes@.len());
                    assert(run_frame(pre, *self));
                    lemma_run_frame_trans(o, pre, *self);
                }
            }
            if !went {
                return ;
            }
            c += 1;
        }
    }

    /// Drains the queue: steps until quiescence. Returns whether the
    /// queue is empty (it always is, unless the run exhausts the engine's
    /// step budget first).
    pub fn step_until_no_events(&mut self) -> (drained: bool)
        requires
            old(self).wf(),
        ensures
            final(self).wf(),
            run_frame(*old(self), *final(self)),
            drained ==> final(self).queue@.len() == 0,
    {
        let ghost o = *old(self);
        proof {
            lemma_run_frame_refl(o);
        }
        let mut fuel: u64 = u64::MAX;
        loop
            invariant
                o == *old(self),
                self.wf(),
                run_frame(o, *self),
            decreases fuel,
        {
            if fuel == 0 {
                return false;
            }
            fuel -= 1;
            let ghost pre = *self;
            let went = self.step();
            proof {
                if went {
                    lemma_run_frame_trans(o, pre, *self);
                } else {
                    lemma_run_frame_refl(pre);
                    assert(self.slots().len() == self.nodes@.len());
                    assert(pre.slots().len() == pre.nodes@.len());
                    assert(run_frame(pre, *self));
                    lemma_run_frame_trans(o, pre, *self);
                }
            }
            if !went {
                return true;
            }
        }
    }

    /// Dispatches every event due within the given duration, then advances
    /// the clock by exactly that duration (saturating at the time limit).
    pub fn step_for_duration(&mut self, d: u64)
        requires
            old(self).wf(),
        ensures
            final(self).wf(),
            run_frame(*old(self), *final(self)),
            final(self).now <= clip64(old(self).now + d),
            final(self).queue@.len() == 0 ==> final(self).now == clip64(old(self).now + d),
    {
        let ghost o = *old(self);
        proof {
            lemma_run_frame_refl(o);
        }
        let target = sat_add64(self.now, d);
        let mut fuel: u64 = u64::MAX;
        loop
            invariant
                o == *old(self),
                self.wf(),
                run_frame(o, *self),
                self.now <= target,
            decreases fuel,
        {
            let due = match self.queue.min_time() {
                Option::None => false,
                Option::Some(t) => t <= target,
            };
            if !due || fuel == 0 {
                break ;
            }
            fuel -= 1;
            let ghost pre = *self;
            let went = self.step();
            proof {
                if went {
                    lemma_run_frame_trans(o, pre, *self);
                } else {
                    lemma_run_frame_refl(pre);
                    assert(self.slots().len() == self.nodes@.len());
                    assert(pre.slots().len() == pre.nodes@.len());
                    assert(run_frame(pre, *self));
                    lemma_run_frame_trans(o, pre, *self);
                }
            }
        }
        let still_due = match self.queue.min_time() {
            Option::None => false,
            Option::Some(t) => t <= target,
        };
        if !still_due {
            let ghost pre = *self;
            self.now = target;
            proof {
                assert(self.slots() =~= pre.slots());
            }
        }
    }

    /// Injects a local input into the named node: the input is appended to
    /// the node's log and the node's local-input handler runs
    /// synchronously; time does not advance. A missing or crashed node
    /// silently absorbs the input.
    pub fn send_local(&mut self, msg: Message, to: &str)
        requires
            old(self).wf(),
        ensures
            final(self).wf(),
            final(self).now == old(self).now,
            net_config_unchanged(*old(self), *final(self)),
            session_frame(*old(self), *final(self)),
            !old(self).has_id(to@) ==> final(self).slots() == old(self).slots()
                && final(self).queue@ == old(self).queue@ && final(self).rng == old(self).rng,
            old(self).has_id(to@) && old(self).slots()[old(self).idx_of(to@)].crashed
                ==> final(self).slots() == old(self).slots()
                && final(self).queue@ == old(self).queue@ && final(self).rng == old(self).rng,
            old(self).has_id(to@) && !old(self).slots()[old(self).idx_of(to@)].crashed ==> ({
                let i = old(self).idx_of(to@);
                &&& final(self).nodes@.len() == old(self).nodes@.len()
                &&& forall|j: int|
                    0 <= j < old(self).nodes@.len() && j != i ==> #[trigger] final(self).slots()[j]
                        == old(self).slots()[j]
                &&& final(self).slots()[i].id == old(self).slots()[i].id
                &&& final(self).slots()[i].crashed == old(self).slots()[i].crashed
                &&& final(self).slots()[i].recv_cnt == old(self).slots()[i].recv_cnt
                &&& final(self).slots()[i].log.len() > old(self).slots()[i].log.len()
                &&& old(self).slots()[i].log.push(
                    (LocalEventV {
                        kind: LocalKind::Input,
                        time: clip64(old(self).now + old(self).slots()[i].skew) as u64,
                        msg: msg@,
                    }),
                ).is_prefix_of(final(self).slots()[i].log)
                &&& forall|k: int|
                    old(self).slots()[i].log.len() + 1 <= k < final(self).slots()[i].log.len() ==> (
                    #[trigger] final(self).slots()[i].log[k]).kind == LocalKind::Output
            }),
    {
        let ghost o = *old(self);
        let i = match self.find_node(to) {
            Option::None => {
                proof {
                    assert(self.slots() =~= o.slots());
                    lemma_session_frame_refl(o);
                    assert(self.slots().len() == self.nodes@.len());
                    assert(o.slots().len() == o.nodes@.len());
                    assert(session_frame(o, *self));
                }
                return ;
            },
            Option::Some(i) => i,
        };
        proof {
            lemma_idx_of(*self, i as int);
            assert(self.slots()[i as int].crashed == self.nodes@[i as int].crashed);
        }
        if self.nodes[i].crashed {
            proof {
                assert(self.slots() =~= o.slots());
                lemma_session_frame_refl(o);
                assert(self.slots().len() == self.nodes@.len());
                assert(o.slots().len() == o.nodes@.len());
                assert(session_frame(o, *self));
            }
            return ;
        }
        let t = self.local_time(i);
        let entry = LocalEvent { kind: LocalKind::Input, time: t, msg: dup_message(&msg) };
        let ghost entryv = entry@;
        self.nodes[i].log.push(entry);
        let ghost s1 = *self;
        proof {
            assert(forall|j: int|
                0 <= j < self.nodes@.len() && j != i ==> #[trigger] s1.slots()[j] == o.slots()[j]);
            assert(s1.slots()[i as int].log =~= o.slots()[i as int].log.push(entryv));
        }
        let acts = self.nodes[i].node.on_local(msg, t);
        let ghost s2 = *self;
        proof {
            assert(s2.slots() =~= s1.slots());
        }
        self.apply_actions(i, acts);
        proof {
            let lo = o.slots()[i as int].log;
            let l1 = s1.slots()[i as int].log;
            let lf = self.slots()[i as int].log;
            assert(l1.is_prefix_of(lf));
            assert(l1 =~= lf.take(l1.len() as int));
            assert(lo.push(entryv) =~= lf.take(lo.push(entryv).len() as int));
            assert forall|k: int| lo.len() + 1 <= k < lf.len() implies (#[trigger] lf[k]).kind
                == LocalKind::Output by {
                assert(k >= l1.len());
            }
            assert forall|j: int| 0 <= j < o.nodes@.len() implies (
            #[trigger] o.slots()[j]).log.is_prefix_of(self.slots()[j].log) by {
                if j != i {
                    assert(self.slots()[j] == o.slots()[j]);
                    assert(o.slots()[j].log =~= o.slots()[j].log.take(
                        o.slots()[j].log.len() as int,
                    ));
                } else {
                    assert(lo.is_prefix_of(lf)) by {
                        assert(lo =~= lf.take(lo.len() as int));
                    }
                }
            }
            assert forall|j: int|
                0 <= j < o.nodes@.len() && (#[trigger] o.slots()[j]).crashed implies self.slots()[
                j
            ].log == o.slots()[j].log by {
                assert(j != i);
            }
            assert(session_frame(o, *self));
        }
    }

    /// Steps the engine until the named node emits a local output, bounded
    /// by a step budget and optionally by a deadline on the clock. On
    /// success the returned messages are exactly the local outputs the
    /// node appended beyond its old log.
    fn run_until_output(&mut self, node: &str, max_steps: u64, deadline: Option<u64>) -> (r: Result<
        Vec<Message>,
        String,
    >)
        requires
            old(self).wf(),
        ensures
            final(self).wf(),
            run_frame(*old(self), *final(self)),
            r matches Ok(v) ==> old(self).has_id(node@) && v@.len() > 0 && msg_views(v@)
                == outputs_of(
                final(self).slots()[old(self).idx_of(node@)].log.skip(
                    old(self).slots()[old(self).idx_of(node@)].log.len() as int,
                ),
            ),
            r matches Err(_) ==> !old(self).has_id(node@)
                || final(self).slots()[old(self).idx_of(node@)].log
                == old(self).slots()[old(self).idx_of(node@)].log,
    {
        let ghost o = *old(self);
        proof {
            lemma_run_frame_refl(o);
        }
        let idx = match self.find_node(node) {
            Option::None => {
                proof {
                    assert(self.slots() =~= o.slots());
                }
                return Result::Err(String::from_str("unknown node"));
            },
            Option::Some(x) => x,
        };
        proof {
            lemma_idx_of(*self, idx as int);
            assert(o.idx_of(node@) == idx as int);
        }
        let base = self.nodes[idx].log.len();
        proof {
            assert(base == o.slots()[idx as int].log.len());
        }
        let mut done: u64 = 0;
        let mut grew = false;
        while done < max_steps && !grew
            invariant
                o == *old(self),
                self.wf(),
                run_frame(o, *self),
                o.has_id(node@),
                o.idx_of(node@) == idx as int,
                idx < self.nodes@.len(),
                self.nodes@.len() == o.nodes@.len(),
                base == o.slots()[idx as int].log.len(),
                grew ==> self.slots()[idx as int].log.len() > base,
                !grew ==> self.slots()[idx as int].log.len() == base,
            decreases max_steps - done,
        {
            let past_deadline = match deadline {
                Option::None => false,
                Option::Some(dl) => {
                    match self.queue.min_time() {
                        Option::None => true,
                        Option::Some(t) => t > dl,
                    }
                },
            };
            if past_deadline {
                break ;
            }
            let ghost pre = *self;
            let went = self.step();
            proof {
                if went {
                    lemma_run_frame_trans(o, pre, *self);
                } else {
                    lemma_run_frame_refl(pre);
                    assert(self.slots().len() == self.nodes@.len());
                    assert(pre.slots().len() == pre.nodes@.len());
                    assert(run_frame(pre, *self));
                    lemma_run_frame_trans(o, pre, *self);
                }
            }
            if !went {
                break ;
            }
            done += 1;
            let cur = self.nodes[idx].log.len();
            proof {
                assert(cur == self.slots()[idx as int].log.len());
                assert(o.slots()[idx as int].log.is_prefix_of(self.slots()[idx as int].log));
            }
            if cur > base {
                grew = true;
            }
        }
        if !grew {
            proof {
                assert(o.slots()[idx as int].log =~= self.slots()[idx as int].log);
            }
            return Result::Err(String::from_str("no local message"));
        }
        proof {
            assert forall|k: int|
                base <= k < log_views(self.nodes@[idx as int].log@).len() implies (
            #[trigger] log_views(self.nodes@[idx as int].log@)[k]).kind == LocalKind::Output by {
                assert(log_views(self.nodes@[idx as int].log@) =~= self.slots()[idx as int].log);
                assert(self.slots()[idx as int].log[k].kind == LocalKind::Output);
            }
        }
        let msgs = collect_outputs(&self.nodes[idx].log, base);
        proof {
            assert(log_views(self.nodes@[idx as int].log@) =~= self.slots()[idx as int].log);
            assert(log_views(self.nodes@[idx as int].log@).skip(base as int) =~= self.slots()[
                idx as int
            ].log.skip(base as int));
        }
        Result::Ok(msgs)
    }

    /// Steps the engine until the named node emits a local output or the
    /// queue drains.
    pub fn step_until_local_message(&mut self, node: &str) -> (r: Result<Vec<Message>, String>)
        requires
            old(self).wf(),
        ensures
            final(self).wf(),
            run_frame(*old(self), *final(self)),
            r matches Ok(v) ==> old(self).has_id(node@) && v@.len() > 0 && msg_views(v@)
                == outputs_of(
                final(self).slots()[old(self).idx_of(node@)].log.skip(
                    old(self).slots()[old(self).idx_of(node@)].log.len() as int,
                ),
            ),
            r matches Err(_) ==> !old(self).has_id(node@)
                || final(self).slots()[old(self).idx_of(node@)].log
                == old(self).slots()[old(self).idx_of(node@)].log,
    {
        self.run_until_output(node, u64::MAX, Option::None)
    }

    /// Steps the engine until the named node emits a local output, giving
    /// up (with an error, not a panic) once no event remains at or before
    /// the deadline `t` from now.
    pub fn step_until_local_message_with_timeout(&mut self, node: &str, t: u64) -> (r: Result<
        Vec<Message>,
        String,
    >)
        requires
            old(self).wf(),
        ensures
            final(self).wf(),
            run_frame(*old(self), *final(self)),
            r matches Ok(v) ==> old(self).has_id(node@) && v@.len() > 0 && msg_views(v@)
                == outputs_of(
                final(self).slots()[old(self).idx_of(node@)].log.skip(
                    old(self).slots()[old(self).idx_of(node@)].log.len() as int,
                ),
            ),
            r matches Err(_) ==> !old(self).has_id(node@)
                || final(self).slots()[old(self).idx_of(node@)].log
                == old(self).slots()[old(self).idx_of(node@)].log,
    {
        let deadline = sat_add64(self.now, t);
        self.run_until_output(node, u64::MAX, Option::Some(deadline))
    }

    /// Steps the engine until the named node emits a local output, giving
    /// up after `k` steps.
    pub fn step_until_local_message_max_steps(&mut self, node: &str, k: u64) -> (r: Result<
        Vec<Message>,
        String,
    >)
        requires
            old(self).wf(),
        ensures
            final(self).wf(),
            run_frame(*old(self), *final(self)),
            r matches Ok(v) ==> old(self).has_id(node@) && v@.len() > 0 && msg_views(v@)
                == outputs_of(
                final(self).slots()[old(self).idx_of(node@)].log.skip(
                    old(self).slots()[old(self).idx_of(node@)].log.len() as int,
                ),
            ),
            r matches Err(_) ==> !old(self).has_id(node@)
                || final(self).slots()[old(self).idx_of(node@)].log
                == old(self).slots()[old(self).idx_of(node@)].log,
    {
        self.run_until_output(node, k, Option::None)
    }

    /// Injects a local request into the named node and waits for its
    /// first local reply, bounded by a step budget. On success the
    /// returned message is a local output the node appended beyond its
    /// old log.
    pub fn request_reply(&mut self, node: &str, msg: Message, max_steps: u64) -> (r: Result<
        Message,
        String,
    >)
        requires
            old(self).wf(),
        ensures
            final(self).wf(),
            session_frame(*old(self), *final(self)),
            r matches Ok(m) ==> old(self).has_id(node@) && ({
                let idx = old(self).idx_of(node@);
                exists|k: int|
                    0 <= k < final(self).slots()[idx].log.len()
                        && (#[trigger] final(self).slots()[idx].log[k]).kind == LocalKind::Output
                        && final(self).slots()[idx].log[k].msg == m@
            }),
    {
        let ghost o = *old(self);
        let base0 = match self.find_node(node) {
            Option::None => {
                proof {
                    lemma_session_frame_refl(o);
                    assert(session_frame(o, *self));
                }
                return Result::Err(String::from_str("unknown node"));
            },
            Option::Some(i) => {
                proof {
                    lemma_idx_of(*self, i as int);
                }
                self.nodes[i].log.len()
            },
        };
        let ghost pre = *self;
        self.send_local(msg, node);
        let ghost s1 = *self;
        proof {
            lemma_session_frame_refl(o);
            lemma_session_frame_trans(o, pre, s1);
        }
        let idx1 = match self.find_node(node) {
            Option::None => {
                return Result::Err(String::from_str("unknown node"));
            },
            Option::Some(i) => i,
        };
        proof {
            lemma_idx_of(s1, idx1 as int);
            assert(o.slots()[idx1 as int].id == node@) by {
                assert(s1.slots()[idx1 as int].id == node@);
                if o.has_id(node@) {
                    let oi = o.idx_of(node@);
                    if o.slots()[oi].crashed {
                    } else {
                        if idx1 as int != oi {
                            assert(s1.slots()[idx1 as int] == o.slots()[idx1 as int]);
                        } else {
                            assert(s1.slots()[oi].id == o.slots()[oi].id);
                        }
                    }
                } else {
                    assert(s1.slots() == o.slots());
                }
            }
            assert(o.has_id(node@));
            lemma_idx_of(o, idx1 as int);
            assert(o.idx_of(node@) == idx1 as int);
        }
        match first_output_from(&self.nodes[idx1].log, base0) {
            Option::Some(m) => {
                proof {
                    assert(log_views(self.nodes@[idx1 as int].log@) =~= self.slots()[idx1
                        as int].log);
                }
                return Result::Ok(m);
            },
            Option::None => {},
        }
        let res = self.step_until_local_message_max_steps(node, max_steps);
        proof {
            lemma_run_frame_session(s1, *self);
            lemma_session_frame_trans(o, s1, *self);
        }
        match res {
            Result::Err(e) => Result::Err(e),
            Result::Ok(mut v) => {
                if v.len() == 0 {
                    return Result::Err(String::from_str("empty reply"));
                }
                let ghost vfirst = v@[0]@;
                let first = dup_message(&v[0]);
                proof {
                    // ids are preserved by the local injection
                    assert forall|i2: int| 0 <= i2 < o.nodes@.len() implies (
                    #[trigger] s1.slots()[i2]).id == o.slots()[i2].id by {
                        if o.has_id(node@) {
                            let oi = o.idx_of(node@);
                            if o.slots()[oi].crashed {
                            } else {
                                if i2 != oi {
                                    assert(s1.slots()[i2] == o.slots()[i2]);
                                }
                            }
                        }
                    }
                    let idx = s1.idx_of(node@);
                    assert(0 <= idx < s1.nodes@.len() && s1.slots()[idx].id == node@);
                    assert(o.slots()[idx].id == node@);
                    assert(o.has_id(node@));
                    lemma_idx_of(o, idx);
                    assert(o.idx_of(node@) == idx);
                    let base = s1.slots()[idx].log.len() as int;
                    let suffix = self.slots()[idx].log.skip(base);
                    assert(msg_views(v@) == outputs_of(suffix));
                    assert(msg_views(v@)[0] == v@[0]@);
                    crate::node::lemma_outputs_membership(suffix, 0);
                    let k = choose|k: int|
                        0 <= k < suffix.len() && (#[trigger] suffix[k]).kind == LocalKind::Output
                            && suffix[k].msg == outputs_of(suffix)[0];
                    assert(suffix[k] == self.slots()[idx].log[base + k]);
                    assert(self.slots()[idx].log[base + k].msg == vfirst);
                }
                Result::Ok(first)
            },
        }
    }

    /// The current simulated time.
    pub fn time(&self) -> (r: u64)
        ensures
            r == self.now,
    {
        self.now
    }

    /// How many nodes the engine holds, crashed ones included.
    pub fn node_count(&self) -> (r: usize)
        ensures
            r == self.nodes@.len(),
    {
        self.nodes.len()
    }

    /// The node ids, in creation order.
    pub fn get_node_ids(&self) -> (r: Vec<String>)
        ensures
            views_of(r@) == self.ids(),
    {
        let mut out: Vec<String> = Vec::new();
        let mut i: usize = 0;
        while i < self.nodes.len()
            invariant
                i <= self.nodes@.len(),
                out@.len() == i,
                forall|j: int| 0 <= j < i ==> out@[j]@ == self.ids()[j],
            decreases self.nodes@.len() - i,
        {
            proof {
                assert(self.ids()[i as int] == self.nodes@[i as int].id@);
            }
            out.push(self.nodes[i].id.clone());
            i += 1;
        }
        proof {
            assert(views_of(out@) =~= self.ids());
        }
        out
    }

    /// Whether the named node is crashed; false for an unknown id.
    pub fn node_is_crashed(&self, id: &str) -> (r: bool)
        requires
            self.wf(),
        ensures
            r == (self.has_id(id@) && self.slots()[self.idx_of(id@)].crashed),
    {
        match self.find_node(id) {
            Option::None => false,
            Option::Some(i) => {
                proof {
                    lemma_idx_of(*self, i as int);
                    assert(self.slots()[i as int].crashed == self.nodes@[i as int].crashed);
                }
                self.nodes[i].crashed
            },
        }
    }

    /// The named node's local event log, in append order.
    pub fn get_local_events(&self, id: &str) -> (r: Vec<LocalEvent>)
        requires
            self.wf(),
        ensures
            self.has_id(id@) ==> log_views(r@) == self.slots()[self.idx_of(id@)].log,
            !self.has_id(id@) ==> r@.len() == 0,
    {
        match self.find_node(id) {
            Option::None => Vec::new(),
            Option::Some(i) => {
                proof {
                    lemma_idx_of(*self, i as int);
                }
                let mut out: Vec<LocalEvent> = Vec::new();
                let mut k: usize = 0;
                while k < self.nodes[i].log.len()
                    invariant
                        i < self.nodes@.len(),
                        k <= self.nodes@[i as int].log@.len(),
                        out@.len() == k,
                        forall|m: int|
                            0 <= m < k ==> (#[trigger] out@[m])@ == self.nodes@[i as int].log@[m]@,
                    decreases self.nodes@[i as int].log@.len() - k,
                {
                    let e = dup_local_event(&self.nodes[i].log[k]);
                    out.push(e);
                    k += 1;
                }
                proof {
                    assert(log_views(out@) =~= self.slots()[i as int].log);
                }
                out
            },
        }
    }

    /// Total number of message copies the network has carried.
    pub fn get_network_message_count(&self) -> (r: u64)
        ensures
            r == self.msg_count,
    {
        self.msg_count
    }

    /// Total payload bytes the network has carried (canonical rendering).
    pub fn get_network_traffic(&self) -> (r: u64)
        ensures
            r == self.traffic,
    {
        self.traffic
    }

    /// How many message copies the named node has sent; zero for an
    /// unknown id.
    pub fn get_sent_message_count(&self, id: &str) -> (r: u64)
        requires
            self.wf(),
        ensures
            self.has_id(id@) ==> r == self.slots()[self.idx_of(id@)].sent_cnt,
            !self.has_id(id@) ==> r == 0,
    {
        match self.find_node(id) {
            Option::None => 0,
            Option::Some(i) => {
                proof {
                    lemma_idx_of(*self, i as int);
                    assert(self.slots()[i as int].sent_cnt == self.nodes@[i as int].sent_cnt);
                }
                self.nodes[i].sent_cnt
            },
        }
    }

    /// How many message copies the named node has received; zero for an
    /// unknown id.
    pub fn get_received_message_count(&self, id: &str) -> (r: u64)
        requires
            self.wf(),
        ensures
            self.has_id(id@) ==> r == self.slots()[self.idx_of(id@)].recv_cnt,
            !self.has_id(id@) ==> r == 0,
    {
        match self.find_node(id) {
            Option::None => 0,
            Option::Some(i) => {
                proof {
                    lemma_idx_of(*self, i as int);
                    assert(self.slots()[i as int].recv_cnt == self.nodes@[i as int].recv_cnt);
                }
                self.nodes[i].recv_cnt
            },
        }
    }

    /// The maximum memory footprint the probe recorded for the named
    /// node; zero for an unknown id.
    pub fn get_max_size(&self, id: &str) -> (r: u64)
        requires
            self.wf(),
        ensures
            self.has_id(id@) ==> r == self.slots()[self.idx_of(id@)].max_size,
            !self.has_id(id@) ==> r == 0,
    {
        match self.find_node(id) {
            Option::None => 0,
            Option::Some(i) => {
                proof {
                    lemma_idx_of(*self, i as int);
                    assert(self.slots()[i as int].max_size == self.nodes@[i as int].max_size);
                }
                self.nodes[i].max_size
            },
        }
    }

    /// Draws a value uniformly in `[lo, hi)` from the engine's stream, for
    /// scenario-level choices that must share the single seeded source.
    pub fn gen_range(&mut self, lo: u64, hi: u64) -> (r: u64)
        requires
            old(self).wf(),
            lo < hi,
        ensures
            final(self).wf(),
            lo <= r < hi,
            r == lo + rng_output(rng_step(old(self).rng.state)) % ((hi - lo) as u64),
            final(self).rng.state == rng_step(old(self).rng.state),
            final(self).now == old(self).now,
            final(self).queue@ == old(self).queue@,
            final(self).slots() == old(self).slots(),
            final(self).msg_count == old(self).msg_count,
            final(self).traffic == old(self).traffic,
            net_config_unchanged(*old(self), *final(self)),
    {
        let r = self.rng.gen_range(lo, hi);
        proof {
            assert(self.slots() =~= old(self).slots());
        }
        r
    }
}

/// The first local-output entry of a log at or after the given index,
/// if any.
fn first_output_from(log: &Vec<LocalEvent>, from: usize) -> (r: Option<Message>)
    ensures
        match r {
            Option::Some(m) => exists|k: int|
                from <= k < log@.len() && (#[trigger] log_views(log@)[k]).kind == LocalKind::Output
                    && log_views(log@)[k].msg == m@,
            Option::None => forall|k: int|
                from <= k < log@.len() ==> (#[trigger] log_views(log@)[k]).kind != LocalKind::Output,
        },
{
    if from >= log.len() {
        return Option::None;
    }
    let mut k: usize = from;
    while k < log.len()
        invariant
            from <= k <= log@.len(),
            log_views(log@).len() == log@.len(),
            forall|k2: int|
                from <= k2 < k ==> (#[trigger] log_views(log@)[k2]).kind != LocalKind::Output,
        decreases log@.len() - k,
    {
        proof {
            assert(log_views(log@)[k as int] == log@[k as int]@);
        }
        let is_out = match log[k].kind {
            LocalKind::Output => true,
            LocalKind::Input => false,
        };
        if is_out {
            let m = dup_message(&log[k].msg);
            proof {
                assert(log_views(log@)[k as int].kind == LocalKind::Output);
                assert(log_views(log@)[k as int].msg == m@);
            }
            return Option::Some(m);
        }
        k += 1;
    }
    Option::None
}

/// Copies the local-output messages of a log's tail, starting at `from`;
/// every entry from there on must be a local output.
fn collect_outputs(log: &Vec<LocalEvent>, from: usize) -> (r: Vec<Message>)
    requires
        from <= log@.len(),
        forall|k: int|
            from <= k < log@.len() ==> (#[trigger] log_views(log@)[k]).kind == LocalKind::Output,
    ensures
        msg_views(r@) == outputs_of(log_views(log@).skip(from as int)),
        r@.len() == log@.len() - from,
{
    let ghost lv = log_views(log@);
    let mut out: Vec<Message> = Vec::new();
    let mut k: usize = from;
    while k < log.len()
        invariant
            lv == log_views(log@),
            from <= k <= log@.len(),
            lv.len() == log@.len(),
            out@.len() == k - from,
            forall|k2: int|
                from <= k2 < log@.len() ==> (#[trigger] log_views(log@)[k2]).kind
                    == LocalKind::Output,
            msg_views(out@) == outputs_of(lv.subrange(from as int, k as int)),
        decreases log@.len() - k,
    {
        let ghost outpre = msg_views(out@);
        proof {
            assert(lv[k as int] == log@[k as int]@);
            assert(lv.subrange(from as int, k + 1 as int).drop_last() =~= lv.subrange(
                from as int,
                k as int,
            ));
            assert(lv.subrange(from as int, k + 1 as int).last() == lv[k as int]);
            assert(lv[k as int].kind == LocalKind::Output);
        }
        let m = dup_message(&log[k].msg);
        out.push(m);
        proof {
            assert(msg_views(out@) =~= outpre.push(lv[k as int].msg));
        }
        k += 1;
    }
    proof {
        assert(lv.subrange(from as int, lv.len() as int) =~= lv.skip(from as int));
    }
    out
}

} // verus!
