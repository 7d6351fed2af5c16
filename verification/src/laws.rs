//! Laws of the dispatch core, stated over the model and proved once for
//! every document, store, and event.

use vstd::prelude::*;
use crate::dom::{NativeListener, NodeData, next_of};
use crate::engine::{DelegationEngine, RootListener, dispatcher_count, is_dispatcher_for};
use crate::handler::Invocation;
use crate::store::{Slot, slot_lookup, delegation_key_of};
use crate::dispatch::{walk, native_phase, root_phase, fire_spec, start_of};

verus! {

/// Everything the walk guarantees about the invocations it appends, proved
/// by induction along the upward chain: the incoming trace is preserved as
/// a prefix; appended invocations sit at strictly decreasing node indices,
/// none above the starting node (bubbling order); each appended invocation
/// happened at a valid, non-disabled node and records the tag of the
/// handler stored there; every appended handler but the last left the
/// cancellation flag alone; and the walk ends cancelled exactly when it
/// began cancelled or its last invoked handler stops propagation.
proof fn lemma_walk_props(
    nodes: Seq<NodeData>,
    slots: Seq<Slot>,
    key: Seq<char>,
    cur: Option<usize>,
    trace: Seq<Invocation>,
    cancelled: bool,
)
    ensures
        ({
            let r = walk(nodes, slots, key, cur, trace, cancelled);
            &&& r.0.len() >= trace.len()
            &&& r.0.subrange(0, trace.len() as int) == trace
            &&& forall|a: int, b: int| trace.len() <= a < b < r.0.len()
                ==> #[trigger] r.0[b].node < #[trigger] r.0[a].node
            &&& forall|a: int| trace.len() <= a < r.0.len()
                ==> cur is Some && (#[trigger] r.0[a]).node <= cur->0
            &&& forall|a: int| trace.len() <= a < r.0.len() ==> {
                let n = (#[trigger] r.0[a]).node;
                &&& n < nodes.len()
                &&& !nodes[n as int].disabled
                &&& slot_lookup(slots, n, key) is Some
                &&& r.0[a].tag == slot_lookup(slots, n, key)->0.tag
            }
            &&& forall|a: int| trace.len() <= a < r.0.len() - 1
                ==> !slot_lookup(slots, (#[trigger] r.0[a]).node, key)->0.stop_propagation
            &&& r.1 == (cancelled || (r.0.len() > trace.len() && slot_lookup(
                slots,
                r.0.last().node,
                key,
            )->0.stop_propagation))
        }),
    decreases (if cur is Some {
        cur->0 as int + 1
    } else {
        0
    }),
{
    let r = walk(nodes, slots, key, cur, trace, cancelled);
    if cur is Some && !cancelled && cur->0 < nodes.len() {
        let i = cur->0;
        let nd = nodes[i as int];
        let lk = slot_lookup(slots, i, key);
        let step = if !nd.disabled && lk is Some {
            (trace.push(Invocation { node: i, tag: lk->0.tag }), lk->0.stop_propagation)
        } else {
            (trace, cancelled)
        };
        assert(step == (if !nd.disabled && lk is Some {
            crate::handler::invoke_spec(lk->0, i, trace, cancelled)
        } else {
            (trace, cancelled)
        }));
        let nxt = next_of(nodes, i);
        if nxt is Some && nxt->0 < i {
            lemma_walk_props(nodes, slots, key, nxt, step.0, step.1);
            assert(r == walk(nodes, slots, key, nxt, step.0, step.1));
        } else {
            assert(r == step);
            assert(r.0.subrange(0, step.0.len() as int) =~= step.0);
        }
        // The incoming trace stays a prefix.
        assert(r.0.subrange(0, step.0.len() as int) == step.0);
        assert forall|idx: int| 0 <= idx < trace.len() implies r.0[idx] == trace[idx] by {
            assert(r.0.subrange(0, step.0.len() as int)[idx] == r.0[idx]);
            if !nd.disabled && lk is Some {
                assert(step.0[idx] == trace[idx]);
            }
        }
        assert(r.0.subrange(0, trace.len() as int) =~= trace);
        if !nd.disabled && lk is Some {
            assert(r.0[trace.len() as int] == step.0[trace.len() as int]);
            assert(r.0[trace.len() as int] == Invocation { node: i, tag: lk->0.tag });
        }
        // Bubbling order and the per-invocation facts.
        assert forall|a: int| trace.len() <= a < r.0.len() implies cur is Some
            && (#[trigger] r.0[a]).node <= cur->0 by {
            if a >= step.0.len() {
                assert(r.0[a].node <= nxt->0);
            }
        }
        assert forall|a: int, b: int| trace.len() <= a < b < r.0.len()
            implies #[trigger] r.0[b].node < #[trigger] r.0[a].node by {
            if a >= step.0.len() {
            } else {
                assert(a == trace.len() && !nd.disabled && lk is Some);
                assert(r.0[a].node == i);
                assert(b >= step.0.len());
                assert(r.0[b].node <= nxt->0);
            }
        }
        assert forall|a: int| trace.len() <= a < r.0.len() implies {
            let n = (#[trigger] r.0[a]).node;
            &&& n < nodes.len()
            &&& !nodes[n as int].disabled
            &&& slot_lookup(slots, n, key) is Some
            &&& r.0[a].tag == slot_lookup(slots, n, key)->0.tag
        } by {
            if a < step.0.len() {
                assert(a == trace.len() && !nd.disabled && lk is Some);
                assert(r.0[a].node == i && r.0[a].tag == lk->0.tag);
            }
        }
        // Only the last invoked handler may stop propagation.
        assert forall|a: int| trace.len() <= a < r.0.len() - 1 implies !slot_lookup(
            slots,
            (#[trigger] r.0[a]).node,
            key,
        )->0.stop_propagation by {
            if a < step.0.len() {
                assert(a == trace.len() && !nd.disabled && lk is Some);
                assert(r.0[a].node == i);
                if lk->0.stop_propagation {
                    // The walk stopped right after this invocation, so it is
                    // the last one.
                    assert(r.0.len() == step.0.len());
                    assert(a == r.0.len() - 1);
                }
            }
        }
        // The final cancellation flag.
        if !nd.disabled && lk is Some {
            if lk->0.stop_propagation {
                assert(r.0 =~= step.0);
                assert(r.0.last().node == i);
            } else {
                if r.0.len() == step.0.len() {
                    assert(r.0 =~= step.0);
                    assert(r.0.last().node == i);
                    assert(!r.1);
                }
            }
        }
    } else {
        assert(r.0.subrange(0, trace.len() as int) =~= trace);
    }
}

/// A prefix of a prefix is a prefix.
proof fn lemma_prefix_chain(a: Seq<Invocation>, b: Seq<Invocation>, c: Seq<Invocation>)
    requires
        b.len() >= a.len(),
        b.subrange(0, a.len() as int) == a,
        c.len() >= b.len(),
        c.subrange(0, b.len() as int) == b,
    ensures
        c.subrange(0, a.len() as int) == a,
{
    assert forall|i: int| 0 <= i < a.len() implies c[i] == a[i] by {
        assert(c.subrange(0, b.len() as int)[i] == c[i]);
        assert(b.subrange(0, a.len() as int)[i] == b[i]);
    }
    assert(c.subrange(0, a.len() as int) =~= a);
}

/// Idempotent delegation: however the engine was built, while its registry
/// invariant holds there is never more than one root dispatcher per event
/// kind, and exactly one for each registered kind.
pub proof fn lemma_at_most_one_dispatcher(engine: DelegationEngine, kind: Seq<char>)
    requires
        engine.registry_wf(),
    ensures
        dispatcher_count(engine.root_listeners@, kind) <= 1,
        crate::engine::registry_contains(engine.registry@, kind)
            <==> dispatcher_count(engine.root_listeners@, kind) == 1,
{
}

/// Bubbling order: the walk appends invocations at strictly decreasing node
/// indices — on a well-formed document every node's ancestors sit at
/// smaller indices, so a descendant's handler always runs before any of its
/// ancestors' handlers, never after.
pub proof fn lemma_bubbling_order(
    nodes: Seq<NodeData>,
    slots: Seq<Slot>,
    key: Seq<char>,
    cur: Option<usize>,
    trace: Seq<Invocation>,
    cancelled: bool,
)
    ensures
        ({
            let r = walk(nodes, slots, key, cur, trace, cancelled);
            &&& r.0.len() >= trace.len()
            &&& r.0.subrange(0, trace.len() as int) == trace
            &&& forall|a: int, b: int| trace.len() <= a < b < r.0.len()
                ==> #[trigger] r.0[b].node < #[trigger] r.0[a].node
            &&& forall|a: int| trace.len() <= a < r.0.len()
                ==> cur is Some && (#[trigger] r.0[a]).node <= cur->0
        }),
{
    lemma_walk_props(nodes, slots, key, cur, trace, cancelled);
}

/// Cancellation short-circuits: once an invoked handler stops propagation
/// no later invocation happens — every appended handler but the last left
/// the flag alone — and the walk ends cancelled exactly when it began
/// cancelled or its last invoked handler stops propagation.
pub proof fn lemma_cancellation_short_circuits(
    nodes: Seq<NodeData>,
    slots: Seq<Slot>,
    key: Seq<char>,
    cur: Option<usize>,
    trace: Seq<Invocation>,
    cancelled: bool,
)
    ensures
        ({
            let r = walk(nodes, slots, key, cur, trace, cancelled);
            &&& forall|a: int| trace.len() <= a < r.0.len() - 1
                ==> !slot_lookup(slots, (#[trigger] r.0[a]).node, key)->0.stop_propagation
            &&& r.1 == (cancelled || (r.0.len() > trace.len() && slot_lookup(
                slots,
                r.0.last().node,
                key,
            )->0.stop_propagation))
            &&& cancelled ==> r.0 == trace
        }),
{
    lemma_walk_props(nodes, slots, key, cur, trace, cancelled);
    if cancelled {
        let r = walk(nodes, slots, key, cur, trace, cancelled);
        assert(r.0 == trace);
    }
}

/// Disabled nodes are skipped but do not block traversal: no appended
/// invocation sits at a disabled node, and each one records the tag of the
/// handler stored at its node — the walk itself continues past disabled
/// nodes, as its definition steps to the next ancestor either way.
pub proof fn lemma_disabled_nodes_skipped(
    nodes: Seq<NodeData>,
    slots: Seq<Slot>,
    key: Seq<char>,
    cur: Option<usize>,
    trace: Seq<Invocation>,
    cancelled: bool,
)
    ensures
        ({
            let r = walk(nodes, slots, key, cur, trace, cancelled);
            forall|a: int| trace.len() <= a < r.0.len() ==> {
                let n = (#[trigger] r.0[a]).node;
                &&& n < nodes.len()
                &&& !nodes[n as int].disabled
                &&& slot_lookup(slots, n, key) is Some
                &&& r.0[a].tag == slot_lookup(slots, n, key)->0.tag
            }
        }),
{
    lemma_walk_props(nodes, slots, key, cur, trace, cancelled);
}

/// The upward chain the walk visits from `cur`: each node, then its host or
/// parent, until the root or an invalid node ends it.
pub open spec fn walk_chain(nodes: Seq<NodeData>, cur: Option<usize>) -> Seq<usize>
    decreases (if cur is Some {
        cur->0 as int + 1
    } else {
        0
    }),
{
    if cur is Some && cur->0 < nodes.len() {
        let i = cur->0;
        let nxt = next_of(nodes, i);
        if nxt is Some && nxt->0 < i {
            seq![i] + walk_chain(nodes, nxt)
        } else {
            seq![i]
        }
    } else {
        Seq::<usize>::empty()
    }
}

/// Dispatch never leaves the ancestor path: every invocation the walk
/// appends happens at a node of the upward chain from its starting node.
pub proof fn lemma_invocations_on_chain(
    nodes: Seq<NodeData>,
    slots: Seq<Slot>,
    key: Seq<char>,
    cur: Option<usize>,
    trace: Seq<Invocation>,
    cancelled: bool,
)
    ensures
        ({
            let r = walk(nodes, slots, key, cur, trace, cancelled);
            forall|a: int| trace.len() <= a < r.0.len()
                ==> walk_chain(nodes, cur).contains((#[trigger] r.0[a]).node)
        }),
    decreases (if cur is Some {
        cur->0 as int + 1
    } else {
        0
    }),
{
    let r = walk(nodes, slots, key, cur, trace, cancelled);
    let chain = walk_chain(nodes, cur);
    if cur is Some && !cancelled && cur->0 < nodes.len() {
        let i = cur->0;
        let nd = nodes[i as int];
        let lk = slot_lookup(slots, i, key);
        let step = if !nd.disabled && lk is Some {
            crate::handler::invoke_spec(lk->0, i, trace, cancelled)
        } else {
            (trace, cancelled)
        };
        let nxt = next_of(nodes, i);
        assert(chain[0] == i);
        if nxt is Some && nxt->0 < i {
            lemma_invocations_on_chain(nodes, slots, key, nxt, step.0, step.1);
            lemma_walk_props(nodes, slots, key, nxt, step.0, step.1);
        }
        assert forall|a: int| trace.len() <= a < r.0.len() implies chain.contains(
            (#[trigger] r.0[a]).node,
        ) by {
            if a < step.0.len() {
                assert(!nd.disabled && lk is Some && a == trace.len());
                if nxt is Some && nxt->0 < i {
                    assert(r.0.subrange(0, step.0.len() as int) == step.0);
                    assert(r.0[a] == step.0[a]);
                }
                assert(r.0[a].node == i);
                assert(chain[0] == i);
            } else {
                let sub = walk_chain(nodes, nxt);
                assert(sub.contains(r.0[a].node));
                let idx = choose|idx: int| 0 <= idx < sub.len() && sub[idx] == r.0[a].node;
                assert(chain[idx + 1] == r.0[a].node);
            }
        }
    }
}

/// Disabled nodes do not block traversal: the chain the walk visits depends
/// only on the tree's parent and host relations, never on disabled markers,
/// stored handlers, or native listeners.
pub proof fn lemma_disabled_does_not_block(
    nodes1: Seq<NodeData>,
    nodes2: Seq<NodeData>,
    cur: Option<usize>,
)
    requires
        nodes1.len() == nodes2.len(),
        forall|i: int| 0 <= i < nodes1.len()
            ==> (#[trigger] nodes1[i]).parent == nodes2[i].parent && nodes1[i].host
                == nodes2[i].host,
    ensures
        walk_chain(nodes1, cur) == walk_chain(nodes2, cur),
    decreases (if cur is Some {
        cur->0 as int + 1
    } else {
        0
    }),
{
    if cur is Some && cur->0 < nodes1.len() {
        let i = cur->0;
        assert(next_of(nodes1, i) == next_of(nodes2, i));
        let nxt = next_of(nodes1, i);
        if nxt is Some && nxt->0 < i {
            lemma_disabled_does_not_block(nodes1, nodes2, nxt);
        }
    }
}

/// Host-boundary traversal: at a node whose structural parent is absent but
/// whose host names another valid node, the walk continues at the host
/// rather than terminating — and the host is preferred even when a parent
/// exists.
pub proof fn lemma_host_boundary_traversal(nodes: Seq<NodeData>, x: usize)
    requires
        x < nodes.len(),
        nodes[x as int].host is Some,
        nodes[x as int].host->0 != x,
        nodes[x as int].host->0 < nodes.len(),
    ensures
        next_of(nodes, x) == nodes[x as int].host,
{
}

/// Overwrite semantics, seen from dispatch: when the store's slot for a
/// node holds `h` — and a later registration for the same pair replaces any
/// earlier one, as `set_handler` guarantees — every invocation a walk
/// appends at that node carries `h`'s tag: only the latest handler fires.
pub proof fn lemma_only_latest_fires(
    nodes: Seq<NodeData>,
    slots: Seq<Slot>,
    key: Seq<char>,
    cur: Option<usize>,
    trace: Seq<Invocation>,
    cancelled: bool,
    node: usize,
    h: crate::handler::Handler,
)
    requires
        slot_lookup(slots, node, key) == Some(h),
    ensures
        ({
            let r = walk(nodes, slots, key, cur, trace, cancelled);
            forall|a: int| trace.len() <= a < r.0.len() && (#[trigger] r.0[a]).node == node
                ==> r.0[a].tag == h.tag
        }),
{
    lemma_disabled_nodes_skipped(nodes, slots, key, cur, trace, cancelled);
}

/// The invocations the target phase appends: one per native listener on the
/// target whose kind matches, in attachment order, with that listener's
/// tag. No delegated state appears here at all.
pub open spec fn native_invocations(ls: Seq<NativeListener>, kind: Seq<char>, target: usize) -> Seq<
    Invocation,
>
    decreases ls.len(),
{
    if ls.len() == 0 {
        Seq::<Invocation>::empty()
    } else {
        let rest = native_invocations(ls.drop_first(), kind, target);
        if ls[0].kind@ == kind {
            seq![Invocation { node: target, tag: ls[0].handler.tag }] + rest
        } else {
            rest
        }
    }
}

/// Whether some matching native listener stops propagation.
pub open spec fn native_cancels(ls: Seq<NativeListener>, kind: Seq<char>) -> bool
    decreases ls.len(),
{
    if ls.len() == 0 {
        false
    } else {
        (ls[0].kind@ == kind && ls[0].handler.stop_propagation) || native_cancels(
            ls.drop_first(),
            kind,
        )
    }
}

/// The target phase appends exactly one invocation per matching native
/// listener — each invoked exactly once per firing — and cancels exactly
/// when the event came in cancelled or some matching listener stops
/// propagation.
pub proof fn lemma_native_phase_exact(
    ls: Seq<NativeListener>,
    kind: Seq<char>,
    target: usize,
    trace: Seq<Invocation>,
    cancelled: bool,
)
    ensures
        ({
            let r = native_phase(ls, kind, target, trace, cancelled);
            &&& r.0 == trace + native_invocations(ls, kind, target)
            &&& r.1 == (cancelled || native_cancels(ls, kind))
        }),
    decreases ls.len(),
{
    let r = native_phase(ls, kind, target, trace, cancelled);
    if ls.len() == 0 {
        assert(r.0 =~= trace + native_invocations(ls, kind, target));
    } else {
        if ls[0].kind@ == kind {
            let inv = Invocation { node: target, tag: ls[0].handler.tag };
            lemma_native_phase_exact(
                ls.drop_first(),
                kind,
                target,
                trace.push(inv),
                cancelled || ls[0].handler.stop_propagation,
            );
            assert(trace.push(inv) =~= trace + seq![inv]);
            assert(trace + seq![inv] + native_invocations(ls.drop_first(), kind, target) =~= trace
                + (seq![inv] + native_invocations(ls.drop_first(), kind, target)));
        } else {
            lemma_native_phase_exact(ls.drop_first(), kind, target, trace, cancelled);
        }
    }
}

/// The root phase only appends: whatever was in the trace stays a prefix.
proof fn lemma_root_phase_extends(
    ls: Seq<RootListener>,
    nodes: Seq<NodeData>,
    slots: Seq<Slot>,
    kind: Seq<char>,
    target: usize,
    path: Seq<usize>,
    trace: Seq<Invocation>,
    cancelled: bool,
)
    ensures
        ({
            let r = root_phase(ls, nodes, slots, kind, target, path, trace, cancelled);
            &&& r.0.len() >= trace.len()
            &&& r.0.subrange(0, trace.len() as int) == trace
        }),
    decreases ls.len(),
{
    let r = root_phase(ls, nodes, slots, kind, target, path, trace, cancelled);
    if ls.len() == 0 {
        assert(r.0.subrange(0, trace.len() as int) =~= trace);
    } else {
        let step = match ls[0] {
            RootListener::Callback { kind: k, handler } => if k@ == kind {
                crate::handler::invoke_spec(handler, target, trace, cancelled)
            } else {
                (trace, cancelled)
            },
            RootListener::Dispatcher { kind: k } => if k@ == kind {
                walk(
                    nodes,
                    slots,
                    delegation_key_of(kind),
                    Some(start_of(path, target)),
                    trace,
                    cancelled,
                )
            } else {
                (trace, cancelled)
            },
        };
        match ls[0] {
            RootListener::Callback { kind: k, handler } => {
                if k@ == kind {
                    assert(step.0.subrange(0, trace.len() as int) =~= trace);
                } else {
                    assert(step.0.subrange(0, trace.len() as int) =~= trace);
                }
            },
            RootListener::Dispatcher { kind: k } => {
                if k@ == kind {
                    lemma_walk_props(
                        nodes,
                        slots,
                        delegation_key_of(kind),
                        Some(start_of(path, target)),
                        trace,
                        cancelled,
                    );
                } else {
                    assert(step.0.subrange(0, trace.len() as int) =~= trace);
                }
            },
        }
        lemma_root_phase_extends(
            ls.drop_first(),
            nodes,
            slots,
            kind,
            target,
            path,
            step.0,
            step.1,
        );
        lemma_prefix_chain(
            trace,
            step.0,
            root_phase(ls.drop_first(), nodes, slots, kind, target, path, step.0, step.1).0,
        );
    }
}

/// A dispatcher count of zero means no listener is a dispatcher for the
/// kind.
proof fn lemma_count_zero_no_dispatcher(ls: Seq<RootListener>, kind: Seq<char>)
    requires
        dispatcher_count(ls, kind) == 0,
    ensures
        forall|j: int| 0 <= j < ls.len() ==> !is_dispatcher_for(#[trigger] ls[j], kind),
    decreases ls.len(),
{
    if ls.len() > 0 {
        assert(ls.drop_last().len() == ls.len() - 1);
        lemma_count_zero_no_dispatcher(ls.drop_last(), kind);
        assert forall|j: int| 0 <= j < ls.len() implies !is_dispatcher_for(
            #[trigger] ls[j],
            kind,
        ) by {
            if j < ls.len() - 1 {
                assert(ls.drop_last()[j] == ls[j]);
            } else {
                assert(ls[j] == ls.last());
            }
        }
    }
}

/// A handler slot for a kind with no root dispatcher never fires: when no
/// dispatcher for the kind stands at the root — exactly the unregistered
/// case, under the registry invariant — the root phase is the same whatever
/// the delegated handler store holds.
pub proof fn lemma_unregistered_kind_never_dispatches(
    ls: Seq<RootListener>,
    nodes: Seq<NodeData>,
    slots1: Seq<Slot>,
    slots2: Seq<Slot>,
    kind: Seq<char>,
    target: usize,
    path: Seq<usize>,
    trace: Seq<Invocation>,
    cancelled: bool,
)
    requires
        dispatcher_count(ls, kind) == 0,
    ensures
        root_phase(ls, nodes, slots1, kind, target, path, trace, cancelled) == root_phase(
            ls,
            nodes,
            slots2,
            kind,
            target,
            path,
            trace,
            cancelled,
        ),
    decreases ls.len(),
{
    lemma_count_zero_no_dispatcher(ls, kind);
    if ls.len() > 0 {
        let step = match ls[0] {
            RootListener::Callback { kind: k, handler } => if k@ == kind {
                crate::handler::invoke_spec(handler, target, trace, cancelled)
            } else {
                (trace, cancelled)
            },
            RootListener::Dispatcher { kind: k } => {
                assert(!is_dispatcher_for(ls[0], kind));
                (trace, cancelled)
            },
        };
        assert forall|j: int| 0 <= j < ls.drop_first().len() implies !is_dispatcher_for(
            #[trigger] ls.drop_first()[j],
            kind,
        ) by {
            assert(ls.drop_first()[j] == ls[j + 1]);
        }
        lemma_no_dispatcher_count_zero(ls.drop_first(), kind);
        lemma_unregistered_kind_never_dispatches(
            ls.drop_first(),
            nodes,
            slots1,
            slots2,
            kind,
            target,
            path,
            step.0,
            step.1,
        );
    }
}

/// Without any dispatcher among the listeners, the dispatcher count is
/// zero.
proof fn lemma_no_dispatcher_count_zero(ls: Seq<RootListener>, kind: Seq<char>)
    requires
        forall|j: int| 0 <= j < ls.len() ==> !is_dispatcher_for(#[trigger] ls[j], kind),
    ensures
        dispatcher_count(ls, kind) == 0,
    decreases ls.len(),
{
    if ls.len() > 0 {
        assert forall|j: int| 0 <= j < ls.drop_last().len() implies !is_dispatcher_for(
            #[trigger] ls.drop_last()[j],
            kind,
        ) by {
            assert(ls.drop_last()[j] == ls[j]);
        }
        lemma_no_dispatcher_count_zero(ls.drop_last(), kind);
    }
}

/// Undelegated isolation: in a full firing, the target's native listeners
/// contribute exactly one invocation each, right after the incoming trace,
/// and that segment is the same whatever the delegated handler store holds
/// — registering or removing delegated handlers elsewhere cannot change it.
pub proof fn lemma_undelegated_isolation(
    nodes: Seq<NodeData>,
    ls: Seq<RootListener>,
    slots1: Seq<Slot>,
    slots2: Seq<Slot>,
    kind: Seq<char>,
    target: usize,
    path: Seq<usize>,
    trace: Seq<Invocation>,
    cancelled: bool,
)
    ensures
        ({
            let r1 = fire_spec(nodes, ls, slots1, kind, target, path, trace, cancelled);
            let r2 = fire_spec(nodes, ls, slots2, kind, target, path, trace, cancelled);
            let tl = if target < nodes.len() {
                nodes[target as int].native_listeners@
            } else {
                Seq::<NativeListener>::empty()
            };
            let seg = trace + native_invocations(tl, kind, target);
            &&& r1.0.len() >= seg.len()
            &&& r1.0.subrange(0, seg.len() as int) == seg
            &&& r2.0.len() >= seg.len()
            &&& r2.0.subrange(0, seg.len() as int) == seg
        }),
{
    let tl = if target < nodes.len() {
        nodes[target as int].native_listeners@
    } else {
        Seq::<NativeListener>::empty()
    };
    lemma_native_phase_exact(tl, kind, target, trace, cancelled);
    let step = native_phase(tl, kind, target, trace, cancelled);
    lemma_root_phase_extends(ls, nodes, slots1, kind, target, path, step.0, step.1);
    lemma_root_phase_extends(ls, nodes, slots2, kind, target, path, step.0, step.1);
}

} // verus!
