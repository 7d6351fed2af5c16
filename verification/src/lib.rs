//! Delegated event dispatch for a DOM-like document tree.
//!
//! One root-level listener per event kind routes events to arbitrarily many
//! tree nodes, simulating native bubbling (including crossing host
//! boundaries of encapsulated subtrees) without registering a native
//! listener for every node.

pub mod dispatch;
pub mod dom;
pub mod engine;
pub mod handler;
pub mod laws;
pub mod store;
