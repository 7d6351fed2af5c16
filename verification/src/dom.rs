//! The document tree model.
//!
//! A node is addressed by its index into the document's node table. Every
//! node is created after its structural parent and after its host, so both
//! relations point at strictly smaller indices; upward traversal therefore
//! terminates. A node carries a disabled marker (disabled nodes never
//! receive delegated dispatch) and its own native listeners, attached
//! through the undelegated path.

use vstd::prelude::*;
use crate::handler::Handler;

verus! {

/// A native per-node listener: fires once per matching event whose target
/// is the owning node, bypassing delegation entirely.
pub struct NativeListener {
    /// The event kind's name this listener matches.
    pub kind: String,
    /// The callback to invoke.
    pub handler: Handler,
}

/// One node of the document tree.
pub struct NodeData {
    /// The structural parent, absent at a subtree root.
    pub parent: Option<usize>,
    /// The host relation: for the root of an encapsulated subtree, the
    /// enclosing node that logically contains the subtree from outside.
    pub host: Option<usize>,
    /// Disabled nodes are skipped by delegated dispatch but do not block
    /// the upward walk.
    pub disabled: bool,
    /// Listeners attached through the undelegated path.
    pub native_listeners: Vec<NativeListener>,
}

/// The document: a growing table of nodes.
pub struct Document {
    /// Node `i`'s data is `nodes[i]`.
    pub nodes: Vec<NodeData>,
}

/// Well-formedness of the node table: parent and host relations point at
/// nodes created earlier, so every upward step strictly decreases the index.
pub open spec fn nodes_wf(nodes: Seq<NodeData>) -> bool {
    forall|i: int| 0 <= i < nodes.len() ==> {
        &&& (#[trigger] nodes[i]).parent is Some ==> nodes[i].parent->0 < i
        &&& nodes[i].host is Some ==> nodes[i].host->0 < i
    }
}

/// The node the upward walk moves to from node `i`: the host when one is
/// present, differs from `i`, and is a valid node — this lets the walk
/// escape an encapsulated subtree to its logical container — otherwise the
/// structural parent; absent when neither exists (root reached).
pub open spec fn next_of(nodes: Seq<NodeData>, i: usize) -> Option<usize> {
    let nd = nodes[i as int];
    if nd.host is Some && nd.host->0 != i && nd.host->0 < nodes.len() {
        nd.host
    } else if nd.parent is Some {
        nd.parent
    } else {
        None
    }
}

impl Document {
    /// Whether the tree's upward relations are well formed.
    pub open spec fn wf(&self) -> bool {
        nodes_wf(self.nodes@)
    }

    /// An empty document.
    pub fn new() -> (doc: Document)
        ensures
            doc.nodes@ == Seq::<NodeData>::empty(),
            doc.wf(),
    {
        Document { nodes: Vec::new() }
    }

    /// The number of nodes.
    pub fn len(&self) -> (n: usize)
        ensures
            n == self.nodes@.len(),
    {
        self.nodes.len()
    }

    /// Ancestor determination for the upward walk: the host when it is
    /// present, differs from `i`, and is a valid node; otherwise the
    /// structural parent; absent when the root is reached. On a well-formed
    /// document the result is always a smaller index.
    pub fn next_node(&self, i: usize) -> (r: Option<usize>)
        requires
            i < self.nodes@.len(),
        ensures
            r == next_of(self.nodes@, i),
            self.wf() && r is Some ==> r->0 < i,
    {
        let nd = &self.nodes[i];
        if let Some(h) = nd.host {
            if h != i && h < self.nodes.len() {
                return Some(h);
            }
        }
        nd.parent
    }

    /// Creates a node with the given upward relations and disabled marker,
    /// and no native listeners; returns its index. Both relations must name
    /// existing nodes, which keeps the tree well formed.
    pub fn create_node(&mut self, parent: Option<usize>, host: Option<usize>, disabled: bool) -> (idx: usize)
        requires
            old(self).wf(),
            parent is Some ==> parent->0 < old(self).nodes@.len(),
            host is Some ==> host->0 < old(self).nodes@.len(),
        ensures
            idx == old(self).nodes@.len(),
            final(self).nodes@.len() == old(self).nodes@.len() + 1,
            forall|j: int| 0 <= j < old(self).nodes@.len() ==> final(self).nodes@[j] == old(self).nodes@[j],
            final(self).nodes@[idx as int].parent == parent,
            final(self).nodes@[idx as int].host == host,
            final(self).nodes@[idx as int].disabled == disabled,
            final(self).nodes@[idx as int].native_listeners@ == Seq::<NativeListener>::empty(),
            final(self).wf(),
    {
        let idx = self.nodes.len();
        self.nodes.push(NodeData { parent, host, disabled, native_listeners: Vec::new() });
        proof {
            assert forall|i: int| 0 <= i < self.nodes@.len() implies {
                &&& (#[trigger] self.nodes@[i]).parent is Some ==> self.nodes@[i].parent->0 < i
                &&& self.nodes@[i].host is Some ==> self.nodes@[i].host->0 < i
            } by {
                if i < idx {
                    assert(self.nodes@[i] == old(self).nodes@[i]);
                }
            }
        }
        idx
    }

    /// Attaches `handler` directly as a native listener on `node` for the
    /// kind named `kind`, bypassing the registry and the delegated handler
    /// store entirely: the undelegated attachment path.
    pub fn add_event_listener_undelegated(&mut self, node: usize, kind: &str, handler: Handler)
        requires
            old(self).wf(),
            node < old(self).nodes@.len(),
        ensures
            final(self).nodes@.len() == old(self).nodes@.len(),
            forall|j: int| 0 <= j < final(self).nodes@.len() && j != node ==> final(self).nodes@[j] == old(self).nodes@[j],
            final(self).nodes@[node as int].parent == old(self).nodes@[node as int].parent,
            final(self).nodes@[node as int].host == old(self).nodes@[node as int].host,
            final(self).nodes@[node as int].disabled == old(self).nodes@[node as int].disabled,
            final(self).nodes@[node as int].native_listeners@.len()
                == old(self).nodes@[node as int].native_listeners@.len() + 1,
            final(self).nodes@[node as int].native_listeners@.drop_last()
                == old(self).nodes@[node as int].native_listeners@,
            final(self).nodes@[node as int].native_listeners@.last().kind@ == kind@,
            final(self).nodes@[node as int].native_listeners@.last().handler == handler,
            final(self).wf(),
    {
        let owned = kind.to_owned();
        let mut nd = self.nodes.remove(node);
        nd.native_listeners.push(NativeListener { kind: owned, handler });
        self.nodes.insert(node, nd);
        proof {
            assert(self.nodes@[node as int].native_listeners@.drop_last()
                =~= old(self).nodes@[node as int].native_listeners@);
            assert forall|j: int| 0 <= j < self.nodes@.len() && j != node
                implies self.nodes@[j] == old(self).nodes@[j] by {}
            assert forall|i: int| 0 <= i < self.nodes@.len() implies {
                &&& (#[trigger] self.nodes@[i]).parent is Some ==> self.nodes@[i].parent->0 < i
                &&& self.nodes@[i].host is Some ==> self.nodes@[i].host->0 < i
            } by {
                assert(old(self).nodes@[i].parent is Some ==> old(self).nodes@[i].parent->0 < i);
                assert(old(self).nodes@[i].host is Some ==> old(self).nodes@[i].host->0 < i);
                if i != node {
                    assert(self.nodes@[i] == old(self).nodes@[i]);
                }
            }
        }
    }
}

} // verus!
