//! Handlers, invocations, and the event envelope.
//!
//! A handler is an invokable callback of one argument, the event. Invoking a
//! handler appends a record to the event's trace — the node that served as
//! the logical current target together with the handler's tag — and raises
//! the event's cancellation flag when the handler stops propagation.

use vstd::prelude::*;

verus! {

/// A callback registered for an event kind.
#[derive(Clone, Copy, PartialEq, Eq, Debug)]
pub struct Handler {
    /// Identifies this callback in an event's invocation trace.
    pub tag: u64,
    /// When set, an invocation of this handler cancels further bubbling.
    pub stop_propagation: bool,
}

/// One recorded callback invocation: the node that served as the logical
/// current target, and the invoked handler's tag.
#[derive(Clone, Copy, PartialEq, Eq, Debug)]
pub struct Invocation {
    /// The node supplied to the callback as its current-target context.
    pub node: usize,
    /// The tag of the handler that ran.
    pub tag: u64,
}

/// The result of invoking `h` with current target `node` on an event whose
/// accumulated trace and cancellation flag are `trace` and `cancelled`.
pub open spec fn invoke_spec(
    h: Handler,
    node: usize,
    trace: Seq<Invocation>,
    cancelled: bool,
) -> (Seq<Invocation>, bool) {
    (trace.push(Invocation { node, tag: h.tag }), cancelled || h.stop_propagation)
}

/// An event occurrence: the kind it belongs to, the node it originated at,
/// an optional explicit composed path (ordered traversal sequence used to
/// cross encapsulation boundaries; empty when absent), a mutable
/// cancellation flag, and the trace of callback invocations so far.
pub struct Event {
    /// The event kind's name.
    pub kind: String,
    /// The node where the event originated.
    pub target: usize,
    /// Explicit traversal order; its first element, when present, replaces
    /// the target as the starting point of delegated dispatch.
    pub composed_path: Vec<usize>,
    /// The stop-propagation flag: once set, no further node receives
    /// delegated dispatch.
    pub cancelled: bool,
    /// Every callback invocation performed for this event, in order.
    pub trace: Vec<Invocation>,
}

impl Event {
    /// A fresh, uncancelled event of kind `kind` originating at `target`,
    /// with no composed path.
    pub fn new(kind: String, target: usize) -> (ev: Event)
        ensures
            ev.kind == kind,
            ev.target == target,
            ev.composed_path@ == Seq::<usize>::empty(),
            !ev.cancelled,
            ev.trace@ == Seq::<Invocation>::empty(),
    {
        Event { kind, target, composed_path: Vec::new(), cancelled: false, trace: Vec::new() }
    }

    /// A fresh, uncancelled event carrying an explicit composed path.
    pub fn with_composed_path(kind: String, target: usize, composed_path: Vec<usize>) -> (ev: Event)
        ensures
            ev.kind == kind,
            ev.target == target,
            ev.composed_path == composed_path,
            !ev.cancelled,
            ev.trace@ == Seq::<Invocation>::empty(),
    {
        Event { kind, target, composed_path, cancelled: false, trace: Vec::new() }
    }
}

} // verus!
