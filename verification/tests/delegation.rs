//! Scenario tests for the delegated dispatch core.

use event_delegation::dispatch::{delegated_step, dispatch_delegated, fire_event, DispatchOutcome, NextMove};
use event_delegation::dom::Document;
use event_delegation::engine::DelegationEngine;
use event_delegation::handler::{Event, Handler};
use event_delegation::store::{event_delegation_key, HandlerStore};

fn handler(tag: u64) -> Handler {
    Handler { tag, stop_propagation: false }
}

fn stopper(tag: u64) -> Handler {
    Handler { tag, stop_propagation: true }
}

/// A chain C (root) <- B <- A, returned as (doc, a, b, c).
fn chain(b_disabled: bool) -> (Document, usize, usize, usize) {
    let mut doc = Document::new();
    let c = doc.create_node(None, None, false);
    let b = doc.create_node(Some(c), None, b_disabled);
    let a = doc.create_node(Some(b), None, false);
    (doc, a, b, c)
}

#[test]
fn key_has_reserved_prefix() {
    assert_eq!(event_delegation_key("click"), "$$$click");
    assert_eq!(event_delegation_key(""), "$$$");
    assert_eq!(event_delegation_key("keydown"), "$$$keydown");
}

#[test]
fn idempotent_delegation_installs_one_dispatcher() {
    let mut engine = DelegationEngine::new();
    assert!(!engine.is_delegated("click"));
    for node in 0..5 {
        engine.add_event_listener(node, "click", handler(node as u64));
    }
    assert!(engine.is_delegated("click"));
    assert_eq!(engine.dispatcher_count_for("click"), 1);
    assert_eq!(engine.root_listeners.len(), 1);
    // A second kind gets its own single dispatcher.
    engine.add_event_listener(0, "keydown", handler(9));
    engine.add_event_listener(1, "keydown", handler(8));
    assert_eq!(engine.dispatcher_count_for("keydown"), 1);
    assert_eq!(engine.dispatcher_count_for("click"), 1);
    assert_eq!(engine.root_listeners.len(), 2);
}

#[test]
fn bubbling_order_child_before_ancestor() {
    let (doc, a, _b, c) = chain(false);
    let mut engine = DelegationEngine::new();
    engine.add_event_listener(a, "click", handler(10));
    engine.add_event_listener(c, "click", handler(30));
    let mut ev = Event::new(String::from("click"), a);
    fire_event(&doc, &engine, &mut ev);
    let got: Vec<(usize, u64)> = ev.trace.iter().map(|i| (i.node, i.tag)).collect();
    assert_eq!(got, vec![(a, 10), (c, 30)]);
    assert!(!ev.cancelled);
}

#[test]
fn cancellation_short_circuits_ancestors() {
    let (doc, a, _b, c) = chain(false);
    let mut engine = DelegationEngine::new();
    engine.add_event_listener(a, "click", stopper(10));
    engine.add_event_listener(c, "click", handler(30));
    let mut ev = Event::new(String::from("click"), a);
    let outcome = dispatch_delegated(&doc, &engine.store, "click", &mut ev);
    let got: Vec<(usize, u64)> = ev.trace.iter().map(|i| (i.node, i.tag)).collect();
    assert_eq!(got, vec![(a, 10)]);
    assert!(ev.cancelled);
    assert_eq!(outcome, DispatchOutcome::Cancelled);
}

#[test]
fn disabled_node_skipped_but_walk_continues() {
    let (doc, a, b, c) = chain(true);
    let mut engine = DelegationEngine::new();
    engine.add_event_listener(a, "click", handler(10));
    engine.add_event_listener(b, "click", handler(20));
    engine.add_event_listener(c, "click", handler(30));
    let mut ev = Event::new(String::from("click"), a);
    fire_event(&doc, &engine, &mut ev);
    let got: Vec<(usize, u64)> = ev.trace.iter().map(|i| (i.node, i.tag)).collect();
    assert_eq!(got, vec![(a, 10), (c, 30)]);
}

#[test]
fn host_boundary_continues_walk() {
    // H is the logical container; X roots an encapsulated subtree: no
    // structural parent, but a host relation to H.
    let mut doc = Document::new();
    let h = doc.create_node(None, None, false);
    let x = doc.create_node(None, Some(h), false);
    let mut engine = DelegationEngine::new();
    engine.add_event_listener(x, "click", handler(1));
    engine.add_event_listener(h, "click", handler(2));
    let mut ev = Event::new(String::from("click"), x);
    let outcome = dispatch_delegated(&doc, &engine.store, "click", &mut ev);
    let got: Vec<(usize, u64)> = ev.trace.iter().map(|i| (i.node, i.tag)).collect();
    assert_eq!(got, vec![(x, 1), (h, 2)]);
    assert_eq!(outcome, DispatchOutcome::Exhausted);
}

#[test]
fn host_preferred_over_parent() {
    let mut doc = Document::new();
    let p = doc.create_node(None, None, false);
    let h = doc.create_node(Some(p), None, false);
    let x = doc.create_node(Some(p), Some(h), false);
    let mut engine = DelegationEngine::new();
    engine.add_event_listener(h, "click", handler(7));
    let mut ev = Event::new(String::from("click"), x);
    dispatch_delegated(&doc, &engine.store, "click", &mut ev);
    // The walk went X -> H (host), then H -> P (parent); only H has a handler.
    let got: Vec<(usize, u64)> = ev.trace.iter().map(|i| (i.node, i.tag)).collect();
    assert_eq!(got, vec![(h, 7)]);
}

#[test]
fn overwrite_replaces_prior_handler() {
    let (doc, a, _b, _c) = chain(false);
    let mut engine = DelegationEngine::new();
    engine.add_event_listener(a, "click", handler(1));
    engine.add_event_listener(a, "click", handler(2));
    let mut ev = Event::new(String::from("click"), a);
    fire_event(&doc, &engine, &mut ev);
    let got: Vec<(usize, u64)> = ev.trace.iter().map(|i| (i.node, i.tag)).collect();
    assert_eq!(got, vec![(a, 2)]);
}

#[test]
fn overwrite_does_not_touch_other_pairs() {
    let (doc, a, _b, c) = chain(false);
    let mut engine = DelegationEngine::new();
    engine.add_event_listener(a, "click", handler(1));
    engine.add_event_listener(c, "click", handler(3));
    engine.add_event_listener(a, "click", handler(2));
    let mut ev = Event::new(String::from("click"), a);
    fire_event(&doc, &engine, &mut ev);
    let got: Vec<(usize, u64)> = ev.trace.iter().map(|i| (i.node, i.tag)).collect();
    assert_eq!(got, vec![(a, 2), (c, 3)]);
}

#[test]
fn undelegated_listener_fires_once_per_event() {
    let (mut doc, a, _b, _c) = chain(false);
    doc.add_event_listener_undelegated(a, "click", handler(7));
    let engine = DelegationEngine::new();
    let mut ev = Event::new(String::from("click"), a);
    fire_event(&doc, &engine, &mut ev);
    let got: Vec<(usize, u64)> = ev.trace.iter().map(|i| (i.node, i.tag)).collect();
    assert_eq!(got, vec![(a, 7)]);
    // A second, separate firing invokes it exactly once again.
    let mut ev2 = Event::new(String::from("click"), a);
    fire_event(&doc, &engine, &mut ev2);
    let got2: Vec<(usize, u64)> = ev2.trace.iter().map(|i| (i.node, i.tag)).collect();
    assert_eq!(got2, vec![(a, 7)]);
}

#[test]
fn undelegated_isolated_from_delegated_registrations() {
    let (mut doc, a, b, c) = chain(false);
    doc.add_event_listener_undelegated(a, "click", handler(7));

    // Without any delegated handlers.
    let engine_bare = DelegationEngine::new();
    let mut ev1 = Event::new(String::from("click"), a);
    fire_event(&doc, &engine_bare, &mut ev1);

    // With delegated handlers for the same kind elsewhere in the tree.
    let mut engine = DelegationEngine::new();
    engine.add_event_listener(b, "click", handler(20));
    engine.add_event_listener(c, "click", handler(30));
    let mut ev2 = Event::new(String::from("click"), a);
    fire_event(&doc, &engine, &mut ev2);

    // The native segment — one invocation of the undelegated listener — is
    // identical; the delegated invocations follow it.
    let native1: Vec<(usize, u64)> = ev1.trace.iter().map(|i| (i.node, i.tag)).collect();
    let all2: Vec<(usize, u64)> = ev2.trace.iter().map(|i| (i.node, i.tag)).collect();
    assert_eq!(native1, vec![(a, 7)]);
    assert_eq!(all2, vec![(a, 7), (b, 20), (c, 30)]);
    assert_eq!(&all2[..1], &native1[..]);
}

#[test]
fn undelegated_ignores_other_kinds() {
    let (mut doc, a, _b, _c) = chain(false);
    doc.add_event_listener_undelegated(a, "keydown", handler(9));
    let engine = DelegationEngine::new();
    let mut ev = Event::new(String::from("click"), a);
    fire_event(&doc, &engine, &mut ev);
    assert!(ev.trace.is_empty());
}

#[test]
fn window_listener_fires_without_delegation_filtering() {
    let (doc, a, _b, _c) = chain(false);
    let mut engine = DelegationEngine::new();
    engine.window_event_listener("click", handler(99));
    // No delegated handler anywhere; the root callback still fires, with the
    // event's target as its context.
    let mut ev = Event::new(String::from("click"), a);
    fire_event(&doc, &engine, &mut ev);
    let got: Vec<(usize, u64)> = ev.trace.iter().map(|i| (i.node, i.tag)).collect();
    assert_eq!(got, vec![(a, 99)]);
    // A non-matching kind does not fire it.
    let mut ev2 = Event::new(String::from("keydown"), a);
    fire_event(&doc, &engine, &mut ev2);
    assert!(ev2.trace.is_empty());
}

#[test]
fn composed_path_overrides_target() {
    let (doc, a, _b, c) = chain(false);
    let mut engine = DelegationEngine::new();
    engine.add_event_listener(a, "click", handler(10));
    engine.add_event_listener(c, "click", handler(30));
    // The composed path says dispatch starts at C even though the literal
    // target is A.
    let mut ev = Event::with_composed_path(String::from("click"), a, vec![c]);
    dispatch_delegated(&doc, &engine.store, "click", &mut ev);
    let got: Vec<(usize, u64)> = ev.trace.iter().map(|i| (i.node, i.tag)).collect();
    assert_eq!(got, vec![(c, 30)]);
}

#[test]
fn invalid_start_exhausts_without_invocations() {
    let (doc, a, _b, _c) = chain(false);
    let mut engine = DelegationEngine::new();
    engine.add_event_listener(a, "click", handler(10));
    // A target beyond the tree: normal termination, not a fault.
    let mut ev = Event::new(String::from("click"), 1000);
    let outcome = dispatch_delegated(&doc, &engine.store, "click", &mut ev);
    assert!(ev.trace.is_empty());
    assert_eq!(outcome, DispatchOutcome::Exhausted);
}

#[test]
fn precancelled_event_dispatches_nothing() {
    let (doc, a, _b, _c) = chain(false);
    let mut engine = DelegationEngine::new();
    engine.add_event_listener(a, "click", handler(10));
    let mut ev = Event::new(String::from("click"), a);
    ev.cancelled = true;
    let outcome = dispatch_delegated(&doc, &engine.store, "click", &mut ev);
    assert!(ev.trace.is_empty());
    assert_eq!(outcome, DispatchOutcome::Cancelled);
}

#[test]
fn step_decision_table() {
    // Disabled nodes are skipped but the walk continues.
    let plan = delegated_step(true, true, false, true);
    assert!(!plan.invoke);
    assert_eq!(plan.next, NextMove::Parent);
    // A valid host is preferred over the parent.
    let plan = delegated_step(false, true, true, true);
    assert!(plan.invoke);
    assert_eq!(plan.next, NextMove::Host);
    // No handler, no ancestor: nothing to invoke, the walk stops.
    let plan = delegated_step(false, false, false, false);
    assert!(!plan.invoke);
    assert_eq!(plan.next, NextMove::Stop);
}

#[test]
fn get_handler_absent_is_none() {
    let store = HandlerStore::new();
    assert!(store.get_handler(0, "click").is_none());
    let mut store = HandlerStore::new();
    store.set_handler(1, "click", handler(5));
    assert!(store.get_handler(0, "click").is_none());
    assert!(store.get_handler(1, "keydown").is_none());
    let got = store.get_handler(1, "click").unwrap();
    assert_eq!(got.tag, 5);
}
