//! The node capability: the uniform interface through which an
//! externally-supplied node implementation receives messages, timers and
//! local inputs, and through which it emits outbound messages, timers and
//! local outputs. Implementations are black boxes; the engine makes no
//! assumption about what a handler returns.

use vstd::prelude::*;
use crate::msg::{Message, MessageV, dup_message};

verus! {

/// Kind of an entry in a node's local event log.
#[derive(Clone, Copy, PartialEq, Eq, Structural)]
pub enum LocalKind {
    /// A local input handed to the node by the harness.
    Input,
    /// A local output emitted by the node.
    Output,
}

/// One entry of a node's local event log, appended in handler-invocation
/// order and never rewritten.
pub struct LocalEvent {
    pub kind: LocalKind,
    pub time: u64,
    pub msg: Message,
}

/// Spec-level shape of a local event.
pub struct LocalEventV {
    pub kind: LocalKind,
    pub time: u64,
    pub msg: MessageV,
}

impl View for LocalEvent {
    type V = LocalEventV;

    open spec fn view(&self) -> LocalEventV {
        LocalEventV { kind: self.kind, time: self.time, msg: self.msg@ }
    }
}

/// The views of a vector of local events.
pub open spec fn log_views(s: Seq<LocalEvent>) -> Seq<LocalEventV> {
    s.map_values(|e: LocalEvent| e@)
}

/// The messages of the local-output entries of a log segment, in order.
pub open spec fn outputs_of(s: Seq<LocalEventV>) -> Seq<MessageV>
    decreases s.len(),
{
    if s.len() == 0 {
        Seq::empty()
    } else {
        let rest = outputs_of(s.drop_last());
        if s.last().kind == LocalKind::Output {
            rest.push(s.last().msg)
        } else {
            rest
        }
    }
}

/// Every output message extracted from a log segment is the message of
/// some local-output entry of that segment.
pub proof fn lemma_outputs_membership(s: Seq<LocalEventV>, m: int)
    requires
        0 <= m < outputs_of(s).len(),
    ensures
        exists|k: int|
            0 <= k < s.len() && (#[trigger] s[k]).kind == LocalKind::Output && s[k].msg
                == outputs_of(s)[m],
    decreases s.len(),
{
    if s.len() > 0 {
        let rest = outputs_of(s.drop_last());
        if s.last().kind == LocalKind::Output && m == rest.len() {
            assert(s[s.len() - 1].kind == LocalKind::Output && s[s.len() - 1].msg == outputs_of(
                s,
            )[m]);
        } else {
            lemma_outputs_membership(s.drop_last(), m);
            let k = choose|k: int|
                0 <= k < s.drop_last().len() && (#[trigger] s.drop_last()[k]).kind
                    == LocalKind::Output && s.drop_last()[k].msg == outputs_of(s.drop_last())[m];
            assert(s[k].kind == LocalKind::Output && s[k].msg == outputs_of(s)[m]);
        }
    }
}

/// A copy of a local event with the same view.
pub fn dup_local_event(e: &LocalEvent) -> (r: LocalEvent)
    ensures
        r@ == e@,
{
    LocalEvent { kind: e.kind, time: e.time, msg: dup_message(&e.msg) }
}

/// The batch of emissions a node hands back from one handler invocation.
pub struct Actions {
    /// Outbound messages, each with its destination node id.
    pub sends: Vec<(String, Message)>,
    /// Timers to install, each with its name and delay; an existing timer
    /// with the same name is replaced.
    pub timers: Vec<(String, u64)>,
    /// Names of pending timers to cancel.
    pub cancels: Vec<String>,
    /// Messages to append to the local event log as local outputs.
    pub locals: Vec<Message>,
}

impl Actions {
    /// An empty batch.
    pub fn new() -> (r: Actions)
        ensures
            r.sends@.len() == 0,
            r.timers@.len() == 0,
            r.cancels@.len() == 0,
            r.locals@.len() == 0,
    {
        Actions { sends: Vec::new(), timers: Vec::new(), cancels: Vec::new(), locals: Vec::new() }
    }
}

/// An externally-supplied node implementation. Each handler receives the
/// node's local time (the engine clock plus the node's skew) and returns a
/// batch of emissions. The engine is single-threaded and non-reentrant: it
/// never invokes a second handler while one is in progress.
pub trait Node {
    /// Handles a message delivered from the network.
    fn on_message(&mut self, src: String, msg: Message, time: u64) -> Actions;

    /// Handles the firing of a timer this node installed.
    fn on_timer(&mut self, name: String, time: u64) -> Actions;

    /// Handles a local input injected by the harness.
    fn on_local(&mut self, msg: Message, time: u64) -> Actions;

    /// Reports the node's current memory footprint for the probe.
    fn memory_size(&self) -> u64;
}

} // verus!
