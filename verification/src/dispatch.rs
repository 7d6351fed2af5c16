//! The delegation dispatcher: the single root-level listener per event
//! kind.
//!
//! On firing, the dispatcher walks the tree upward from the event's
//! starting node — the head of its composed path when one is present,
//! otherwise its target — invoking each stored matching handler until the
//! event is cancelled or the root is exhausted. Disabled nodes are skipped
//! but do not block the walk; a host relation is preferred over the
//! structural parent, so the walk escapes encapsulated subtrees; a missing
//! or invalid node terminates the walk as exhausted, not as an error.
//!
//! A dispatch pass reads a store that is fixed for that pass: handlers
//! registered while a walk is in progress take effect for future events and
//! never change the node sequence already being walked.

use vstd::prelude::*;
use crate::dom::{Document, NativeListener, NodeData, next_of};
use crate::engine::{DelegationEngine, RootListener};
use crate::handler::{Event, Invocation, invoke_spec};
use crate::store::{HandlerStore, Slot, delegation_key_of, event_delegation_key, slot_lookup};

verus! {

/// Where the delegated walk starts: the composed path's first node when the
/// path is non-empty, otherwise the event's target.
pub open spec fn start_of(path: Seq<usize>, target: usize) -> usize {
    if path.len() > 0 {
        path[0]
    } else {
        target
    }
}

/// The delegated upward walk from `cur`, accumulating onto an event whose
/// trace and cancellation flag are `trace` and `cancelled`: at each valid,
/// uncancelled node, the handler stored under `key` is invoked unless the
/// node is disabled; the walk then moves to the node's host or parent and
/// ends when neither exists, the node is invalid, or the event has been
/// cancelled.
pub open spec fn walk(
    nodes: Seq<NodeData>,
    slots: Seq<Slot>,
    key: Seq<char>,
    cur: Option<usize>,
    trace: Seq<Invocation>,
    cancelled: bool,
) -> (Seq<Invocation>, bool)
    decreases (if cur is Some {
        cur->0 as int + 1
    } else {
        0
    }),
{
    if cur is Some && !cancelled && cur->0 < nodes.len() {
        let i = cur->0;
        let nd = nodes[i as int];
        let step = if !nd.disabled && slot_lookup(slots, i, key) is Some {
            invoke_spec(slot_lookup(slots, i, key)->0, i, trace, cancelled)
        } else {
            (trace, cancelled)
        };
        let nxt = next_of(nodes, i);
        if nxt is Some && nxt->0 < i {
            walk(nodes, slots, key, nxt, step.0, step.1)
        } else {
            (step.0, step.1)
        }
    } else {
        (trace, cancelled)
    }
}

/// How a delegated dispatch pass ended.
#[derive(Clone, Copy, PartialEq, Eq, Debug)]
pub enum DispatchOutcome {
    /// The cancellation flag stopped the walk before the root.
    Cancelled,
    /// The walk ran out of ancestors.
    Exhausted,
}

/// Runs the delegation dispatcher for `kind` on `ev`: the upward walk
/// described by `walk`, starting at the event's composed-path head or
/// target. The outcome reports which terminal state ended the walk.
pub fn dispatch_delegated(
    doc: &Document,
    store: &HandlerStore,
    kind: &str,
    ev: &mut Event,
) -> (outcome: DispatchOutcome)
    requires
        doc.wf(),
    ensures
        ({
            let r = walk(
                doc.nodes@,
                store.slots@,
                delegation_key_of(kind@),
                Some(start_of(old(ev).composed_path@, old(ev).target)),
                old(ev).trace@,
                old(ev).cancelled,
            );
            &&& final(ev).trace@ == r.0
            &&& final(ev).cancelled == r.1
            &&& (outcome is Cancelled <==> r.1)
        }),
        final(ev).kind == old(ev).kind,
        final(ev).target == old(ev).target,
        final(ev).composed_path == old(ev).composed_path,
{
    let ghost k = delegation_key_of(kind@);
    let ghost start0 = start_of(old(ev).composed_path@, old(ev).target);
    let key = event_delegation_key(kind);
    let start = if ev.composed_path.len() > 0 {
        ev.composed_path[0]
    } else {
        ev.target
    };
    let mut cur: Option<usize> = Some(start);
    loop
        invariant
            doc.wf(),
            key@ == k,
            ev.kind == old(ev).kind,
            ev.target == old(ev).target,
            ev.composed_path == old(ev).composed_path,
            walk(doc.nodes@, store.slots@, k, cur, ev.trace@, ev.cancelled) == walk(
                doc.nodes@,
                store.slots@,
                k,
                Some(start0),
                old(ev).trace@,
                old(ev).cancelled,
            ),
        ensures
            cur is None || ev.cancelled,
            ev.kind == old(ev).kind,
            ev.target == old(ev).target,
            ev.composed_path == old(ev).composed_path,
            walk(doc.nodes@, store.slots@, k, cur, ev.trace@, ev.cancelled) == walk(
                doc.nodes@,
                store.slots@,
                k,
                Some(start0),
                old(ev).trace@,
                old(ev).cancelled,
            ),
        decreases (if cur is Some {
            cur->0 as int + 1
        } else {
            0
        }),
    {
        let i = match cur {
            Some(i) => i,
            None => { break; },
        };
        if ev.cancelled {
            break;
        }
        let ghost t0 = ev.trace@;
        let ghost c0 = ev.cancelled;
        if i >= doc.len() {
            cur = None;
            proof {
                assert(walk(doc.nodes@, store.slots@, k, Some(i), t0, c0) == (t0, c0));
            }
        } else {
            if !doc.nodes[i].disabled {
                match store.get_handler_by_key(i, &key) {
                    Some(h) => {
                        ev.trace.push(Invocation { node: i, tag: h.tag });
                        if h.stop_propagation {
                            ev.cancelled = true;
                        }
                    },
                    None => {},
                }
            }
            cur = doc.next_node(i);
            proof {
                assert(walk(doc.nodes@, store.slots@, k, Some(i), t0, c0) == walk(
                    doc.nodes@,
                    store.slots@,
                    k,
                    cur,
                    ev.trace@,
                    ev.cancelled,
                ));
            }
        }
    }
    if ev.cancelled {
        DispatchOutcome::Cancelled
    } else {
        DispatchOutcome::Exhausted
    }
}

/// The ancestor move the walk takes after visiting a node.
#[derive(Clone, Copy, PartialEq, Eq, Debug)]
pub enum NextMove {
    /// Continue at the node's host: the walk escapes an encapsulated
    /// subtree to its logical container.
    Host,
    /// Continue at the structural parent.
    Parent,
    /// The root is reached; the walk ends as exhausted.
    Stop,
}

/// The decision the dispatcher takes at one node of the walk.
#[derive(Clone, Copy, PartialEq, Eq, Debug)]
pub struct StepPlan {
    /// Whether the node's stored handler, if any, is invoked.
    pub invoke: bool,
    /// Where the walk moves next.
    pub next: NextMove,
}

/// The per-node decision of the delegated walk, for a driver that can only
/// observe a real tree node by node: a disabled node's handler is skipped
/// but the walk continues; a host that exists, differs from the node, and
/// is a valid tree node is preferred over the structural parent; with
/// neither, the walk stops. `has_handler` says whether a handler is stored
/// for the event's kind at this node.
pub fn delegated_step(disabled: bool, has_handler: bool, host_valid: bool, has_parent: bool) -> (plan: StepPlan)
    ensures
        plan.invoke == (!disabled && has_handler),
        plan.next is Host <==> host_valid,
        plan.next is Parent <==> (!host_valid && has_parent),
        plan.next is Stop <==> (!host_valid && !has_parent),
{
    StepPlan {
        invoke: !disabled && has_handler,
        next: if host_valid {
            NextMove::Host
        } else if has_parent {
            NextMove::Parent
        } else {
            NextMove::Stop
        },
    }
}

/// The target phase of a native firing: every native listener on the target
/// node whose kind matches is invoked, in attachment order. Listeners on one
/// node all run even after cancellation — the flag stops bubbling to further
/// nodes, not the node's own listeners.
pub open spec fn native_phase(
    ls: Seq<NativeListener>,
    kind: Seq<char>,
    target: usize,
    trace: Seq<Invocation>,
    cancelled: bool,
) -> (Seq<Invocation>, bool)
    decreases ls.len(),
{
    if ls.len() == 0 {
        (trace, cancelled)
    } else {
        let step = if ls[0].kind@ == kind {
            invoke_spec(ls[0].handler, target, trace, cancelled)
        } else {
            (trace, cancelled)
        };
        native_phase(ls.drop_first(), kind, target, step.0, step.1)
    }
}

/// The root phase of a firing: each root listener whose kind matches runs in
/// attachment order. A plain callback is invoked with the event's target as
/// its context; the delegation dispatcher performs the upward walk, which
/// does nothing when the event has already been cancelled.
pub open spec fn root_phase(
    ls: Seq<RootListener>,
    nodes: Seq<NodeData>,
    slots: Seq<Slot>,
    kind: Seq<char>,
    target: usize,
    path: Seq<usize>,
    trace: Seq<Invocation>,
    cancelled: bool,
) -> (Seq<Invocation>, bool)
    decreases ls.len(),
{
    if ls.len() == 0 {
        (trace, cancelled)
    } else {
        let step = match ls[0] {
            RootListener::Callback { kind: k, handler } => if k@ == kind {
                invoke_spec(handler, target, trace, cancelled)
            } else {
                (trace, cancelled)
            },
            RootListener::Dispatcher { kind: k } => if k@ == kind {
                walk(nodes, slots, delegation_key_of(kind), Some(start_of(path, target)), trace, cancelled)
            } else {
                (trace, cancelled)
            },
        };
        root_phase(ls.drop_first(), nodes, slots, kind, target, path, step.0, step.1)
    }
}

/// One full firing of an event: the target node's native listeners run
/// first, then the root listeners. An invalid target contributes no native
/// invocations — normal termination, not a fault.
pub open spec fn fire_spec(
    nodes: Seq<NodeData>,
    root_ls: Seq<RootListener>,
    slots: Seq<Slot>,
    kind: Seq<char>,
    target: usize,
    path: Seq<usize>,
    trace: Seq<Invocation>,
    cancelled: bool,
) -> (Seq<Invocation>, bool) {
    let tl = if target < nodes.len() {
        nodes[target as int].native_listeners@
    } else {
        Seq::<NativeListener>::empty()
    };
    let step = native_phase(tl, kind, target, trace, cancelled);
    root_phase(root_ls, nodes, slots, kind, target, path, step.0, step.1)
}

/// Fires `ev` against the document and the engine: the target node's native
/// listeners run first, then every matching root listener — plain callbacks
/// and the kind's delegation dispatcher — in attachment order.
pub fn fire_event(doc: &Document, engine: &DelegationEngine, ev: &mut Event)
    requires
        doc.wf(),
    ensures
        ({
            let r = fire_spec(
                doc.nodes@,
                engine.root_listeners@,
                engine.store.slots@,
                old(ev).kind@,
                old(ev).target,
                old(ev).composed_path@,
                old(ev).trace@,
                old(ev).cancelled,
            );
            &&& final(ev).trace@ == r.0
            &&& final(ev).cancelled == r.1
        }),
        final(ev).kind == old(ev).kind,
        final(ev).target == old(ev).target,
        final(ev).composed_path == old(ev).composed_path,
{
    let ghost kindv = old(ev).kind@;
    let target = ev.target;
    // Target phase: the native listeners attached to the target node.
    if target < doc.len() {
        let ghost tl = doc.nodes@[target as int].native_listeners@;
        let n_listeners = doc.nodes[target].native_listeners.len();
        let mut j: usize = 0;
        proof {
            assert(tl.skip(0) =~= tl);
        }
        while j < n_listeners
            invariant
                doc.wf(),
                target < doc.nodes@.len(),
                tl == doc.nodes@[target as int].native_listeners@,
                n_listeners == tl.len(),
                j <= n_listeners,
                ev.kind == old(ev).kind,
                ev.target == old(ev).target,
                ev.composed_path == old(ev).composed_path,
                kindv == old(ev).kind@,
                native_phase(tl.skip(j as int), kindv, target, ev.trace@, ev.cancelled)
                    == native_phase(tl, kindv, target, old(ev).trace@, old(ev).cancelled),
            decreases n_listeners - j,
        {
            proof {
                assert(tl.skip(j as int)[0] == tl[j as int]);
                assert(tl.skip(j as int).drop_first() =~= tl.skip(j as int + 1));
            }
            let ghost tb = ev.trace@;
            let ghost cb = ev.cancelled;
            let matching = doc.nodes[target].native_listeners[j].kind == ev.kind;
            if matching {
                let tag = doc.nodes[target].native_listeners[j].handler.tag;
                let stop = doc.nodes[target].native_listeners[j].handler.stop_propagation;
                ev.trace.push(Invocation { node: target, tag });
                if stop {
                    ev.cancelled = true;
                }
            }
            proof {
                assert(native_phase(tl.skip(j as int), kindv, target, tb, cb) == native_phase(
                    tl.skip(j as int + 1),
                    kindv,
                    target,
                    ev.trace@,
                    ev.cancelled,
                ));
            }
            j += 1;
        }
        proof {
            assert(tl.skip(n_listeners as int) =~= Seq::<NativeListener>::empty());
        }
    }
    // Root phase: plain callbacks and the delegation dispatcher.
    let ghost tn = ev.trace@;
    let ghost cn = ev.cancelled;
    let ghost rls = engine.root_listeners@;
    let n_root = engine.root_listeners.len();
    let mut j: usize = 0;
    proof {
        assert(rls.skip(0) =~= rls);
    }
    while j < n_root
        invariant
            doc.wf(),
            rls == engine.root_listeners@,
            n_root == rls.len(),
            j <= n_root,
            ev.kind == old(ev).kind,
            ev.target == old(ev).target,
            ev.composed_path == old(ev).composed_path,
            kindv == old(ev).kind@,
            target == old(ev).target,
            root_phase(
                rls.skip(j as int),
                doc.nodes@,
                engine.store.slots@,
                kindv,
                old(ev).target,
                old(ev).composed_path@,
                ev.trace@,
                ev.cancelled,
            ) == root_phase(
                rls,
                doc.nodes@,
                engine.store.slots@,
                kindv,
                old(ev).target,
                old(ev).composed_path@,
                tn,
                cn,
            ),
        decreases n_root - j,
    {
        proof {
            assert(rls.skip(j as int)[0] == rls[j as int]);
            assert(rls.skip(j as int).drop_first() =~= rls.skip(j as int + 1));
        }
        let ghost tb = ev.trace@;
        let ghost cb = ev.cancelled;
        match &engine.root_listeners[j] {
            RootListener::Callback { kind: k, handler } => {
                if *k == ev.kind {
                    let tag = handler.tag;
                    let stop = handler.stop_propagation;
                    ev.trace.push(Invocation { node: target, tag });
                    if stop {
                        ev.cancelled = true;
                    }
                }
            },
            RootListener::Dispatcher { kind: k } => {
                if *k == ev.kind {
                    let _ = dispatch_delegated(doc, &engine.store, k.as_str(), ev);
                }
            },
        }
        proof {
            assert(root_phase(
                rls.skip(j as int),
                doc.nodes@,
                engine.store.slots@,
                kindv,
                old(ev).target,
                old(ev).composed_path@,
                tb,
                cb,
            ) == root_phase(
                rls.skip(j as int + 1),
                doc.nodes@,
                engine.store.slots@,
                kindv,
                old(ev).target,
                old(ev).composed_path@,
                ev.trace@,
                ev.cancelled,
            ));
        }
        j += 1;
    }
    proof {
        assert(rls.skip(n_root as int) =~= Seq::<RootListener>::empty());
    }
}

} // verus!

