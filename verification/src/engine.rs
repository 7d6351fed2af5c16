//! The delegation engine: the global event registry, the root listener
//! list, and the delegated handler store.
//!
//! The registry is the process-wide set of event kinds for which a
//! delegation dispatcher has been installed at the root. It grows
//! monotonically, and the engine's well-formedness ties it to the root
//! listener list: a kind is registered exactly when one dispatcher for it
//! stands at the root — never two.

use vstd::prelude::*;
use crate::handler::Handler;
use crate::store::{HandlerStore, delegation_key_of, slot_lookup};

verus! {

/// A listener installed at the document root.
pub enum RootListener {
    /// A plain root callback, attached through `window_event_listener`:
    /// invoked on every matching event, without delegation filtering.
    Callback {
        /// The event kind's name the callback matches.
        kind: String,
        /// The callback.
        handler: Handler,
    },
    /// The delegation dispatcher for a kind: on firing it walks the tree
    /// upward from the event's starting node.
    Dispatcher {
        /// The event kind's name the dispatcher serves.
        kind: String,
    },
}

/// Whether `l` is the delegation dispatcher for `kind`.
pub open spec fn is_dispatcher_for(l: RootListener, kind: Seq<char>) -> bool {
    l matches RootListener::Dispatcher { kind: k } && k@ == kind
}

/// Whether `l` is a plain root callback for `kind` invoking `h`.
pub open spec fn is_callback_for(l: RootListener, kind: Seq<char>, h: Handler) -> bool {
    l matches RootListener::Callback { kind: k, handler } && k@ == kind && handler == h
}

/// How many dispatchers for `kind` stand among the root listeners.
pub open spec fn dispatcher_count(ls: Seq<RootListener>, kind: Seq<char>) -> nat
    decreases ls.len(),
{
    if ls.len() == 0 {
        0
    } else {
        dispatcher_count(ls.drop_last(), kind) + (if is_dispatcher_for(ls.last(), kind) {
            1nat
        } else {
            0nat
        })
    }
}

/// Whether the registry holds the kind named `kind`.
pub open spec fn registry_contains(reg: Seq<String>, kind: Seq<char>) -> bool {
    exists|i: int| 0 <= i < reg.len() && reg[i]@ == kind
}

/// Appending a root listener adds one to the dispatcher count of the kind
/// it serves, when it is a dispatcher, and changes no other count.
proof fn lemma_dispatcher_count_push(ls: Seq<RootListener>, x: RootListener, kind: Seq<char>)
    ensures
        dispatcher_count(ls.push(x), kind) == dispatcher_count(ls, kind) + (
        if is_dispatcher_for(x, kind) {
            1nat
        } else {
            0nat
        }),
{
    assert(ls.push(x).drop_last() =~= ls);
    assert(ls.push(x).last() == x);
}

/// Appending a kind to the registry makes it hold exactly the old kinds and
/// the new one.
proof fn lemma_registry_contains_push(reg: Seq<String>, s: String, kind: Seq<char>)
    ensures
        registry_contains(reg.push(s), kind) == (registry_contains(reg, kind) || s@ == kind),
{
    if registry_contains(reg, kind) {
        let i = choose|i: int| 0 <= i < reg.len() && reg[i]@ == kind;
        assert(reg.push(s)[i]@ == kind);
    }
    if s@ == kind {
        assert(reg.push(s)[reg.len() as int]@ == kind);
    }
    if registry_contains(reg.push(s), kind) {
        let i = choose|i: int| 0 <= i < reg.push(s).len() && reg.push(s)[i]@ == kind;
        if i < reg.len() {
            assert(reg[i]@ == kind);
        }
    }
}

/// The delegation engine: everything the dispatch core owns. Created once
/// at root-mount time; all operations run on the single logical thread of
/// UI execution.
pub struct DelegationEngine {
    /// The listeners installed at the document root, in attachment order.
    pub root_listeners: Vec<RootListener>,
    /// The delegated handler store.
    pub store: HandlerStore,
    /// The global event registry: the kinds whose dispatcher is installed.
    pub registry: Vec<String>,
}

impl DelegationEngine {
    /// The registry invariant: a kind is registered exactly when one
    /// dispatcher for it — never two — stands at the root, and the registry
    /// holds no kind twice.
    pub open spec fn registry_wf(&self) -> bool {
        &&& forall|k: Seq<char>| #[trigger] dispatcher_count(self.root_listeners@, k) == (
        if registry_contains(self.registry@, k) {
            1nat
        } else {
            0nat
        })
        &&& forall|i: int, j: int| 0 <= i < j < self.registry@.len()
            ==> self.registry@[i]@ != self.registry@[j]@
    }

    /// Every stored handler slot belongs to a registered kind: a slot for a
    /// kind with no root dispatcher would never fire.
    pub open spec fn slots_registered(&self) -> bool {
        forall|i: int| 0 <= i < self.store.slots@.len() ==> {
            let key = (#[trigger] self.store.slots@[i]).key@;
            &&& key.len() >= 3
            &&& key.subrange(0, 3) == seq!['$', '$', '$']
            &&& registry_contains(self.registry@, key.skip(3))
        }
    }

    /// The engine's well-formedness.
    pub open spec fn wf(&self) -> bool {
        self.registry_wf() && self.slots_registered()
    }

    /// A fresh engine: nothing attached, nothing registered.
    pub fn new() -> (engine: DelegationEngine)
        ensures
            engine.root_listeners@ == Seq::<RootListener>::empty(),
            engine.store.slots@ == Seq::<crate::store::Slot>::empty(),
            engine.registry@ == Seq::<String>::empty(),
            engine.wf(),
    {
        let engine = DelegationEngine {
            root_listeners: Vec::new(),
            store: HandlerStore::new(),
            registry: Vec::new(),
        };
        proof {
            assert forall|k: Seq<char>| #[trigger] dispatcher_count(engine.root_listeners@, k) == (
            if registry_contains(engine.registry@, k) {
                1nat
            } else {
                0nat
            }) by {
                assert(!registry_contains(engine.registry@, k));
            }
        }
        engine
    }

    /// Whether the registry already holds `kind`.
    pub fn is_delegated(&self, kind: &str) -> (r: bool)
        ensures
            r == registry_contains(self.registry@, kind@),
    {
        let owned = kind.to_owned();
        let n = self.registry.len();
        let mut j: usize = 0;
        while j < n
            invariant
                n == self.registry@.len(),
                j <= n,
                forall|i: int| 0 <= i < j ==> (#[trigger] self.registry@[i])@ != kind@,
                owned@ == kind@,
            decreases n - j,
        {
            if self.registry[j] == owned {
                return true;
            }
            j += 1;
        }
        false
    }

    /// How many dispatchers for `kind` stand at the root. The registry
    /// invariant bounds this by one.
    pub fn dispatcher_count_for(&self, kind: &str) -> (n: usize)
        ensures
            n == dispatcher_count(self.root_listeners@, kind@),
    {
        let total = self.root_listeners.len();
        let mut j: usize = 0;
        let mut n: usize = 0;
        proof {
            assert(self.root_listeners@.take(0) =~= Seq::<RootListener>::empty());
        }
        while j < total
            invariant
                total == self.root_listeners@.len(),
                j <= total,
                n <= j,
                n == dispatcher_count(self.root_listeners@.take(j as int), kind@),
            decreases total - j,
        {
            proof {
                assert(self.root_listeners@.take(j as int + 1).drop_last()
                    =~= self.root_listeners@.take(j as int));
                assert(self.root_listeners@.take(j as int + 1).last()
                    == self.root_listeners@[j as int]);
            }
            let hit = match &self.root_listeners[j] {
                RootListener::Dispatcher { kind: k } => {
                    let owned = kind.to_owned();
                    *k == owned
                },
                _ => false,
            };
            if hit {
                n += 1;
            }
            j += 1;
        }
        proof {
            assert(self.root_listeners@.take(total as int) =~= self.root_listeners@);
        }
        n
    }

    /// Attaches `handler` at the root for `kind`: it will be invoked on
    /// every matching event, without delegation filtering.
    pub fn window_event_listener(&mut self, kind: &str, handler: Handler)
        ensures
            final(self).root_listeners@.len() == old(self).root_listeners@.len() + 1,
            final(self).root_listeners@.drop_last() == old(self).root_listeners@,
            is_callback_for(final(self).root_listeners@.last(), kind@, handler),
            final(self).store == old(self).store,
            final(self).registry == old(self).registry,
            old(self).wf() ==> final(self).wf(),
    {
        let ghost pre = self.root_listeners@;
        self.root_listeners.push(RootListener::Callback { kind: kind.to_owned(), handler });
        proof {
            assert(self.root_listeners@.drop_last() =~= pre);
            let x = self.root_listeners@.last();
            assert forall|k: Seq<char>| #[trigger] dispatcher_count(self.root_listeners@, k)
                == dispatcher_count(pre, k) by {
                lemma_dispatcher_count_push(pre, x, k);
            }
        }
    }

    /// Ensures a live dispatcher for `kind`: when the registry does not yet
    /// hold the kind, installs the root dispatcher and registers it, as one
    /// operation; when it does, changes nothing. Idempotent — however often
    /// it runs for one kind, exactly one dispatcher stands at the root.
    pub fn add_delegated_event_listener(&mut self, kind: &str)
        requires
            old(self).registry_wf(),
        ensures
            final(self).registry_wf(),
            final(self).store == old(self).store,
            registry_contains(final(self).registry@, kind@),
            dispatcher_count(final(self).root_listeners@, kind@) == 1,
            forall|k: Seq<char>| registry_contains(old(self).registry@, k)
                ==> registry_contains(final(self).registry@, k),
            forall|k: Seq<char>| k != kind@
                ==> registry_contains(final(self).registry@, k)
                    == registry_contains(old(self).registry@, k),
            registry_contains(old(self).registry@, kind@)
                ==> final(self).registry == old(self).registry
                    && final(self).root_listeners == old(self).root_listeners,
            !registry_contains(old(self).registry@, kind@) ==> {
                &&& final(self).root_listeners@.len() == old(self).root_listeners@.len() + 1
                &&& final(self).root_listeners@.drop_last() == old(self).root_listeners@
                &&& is_dispatcher_for(final(self).root_listeners@.last(), kind@)
            },
    {
        if !self.is_delegated(kind) {
            let ghost pre_ls = self.root_listeners@;
            let ghost pre_reg = self.registry@;
            self.root_listeners.push(RootListener::Dispatcher { kind: kind.to_owned() });
            self.registry.push(kind.to_owned());
            proof {
                assert(self.root_listeners@.drop_last() =~= pre_ls);
                let x = self.root_listeners@.last();
                let s = self.registry@.last();
                assert(self.registry@.drop_last() =~= pre_reg);
                assert forall|k: Seq<char>| #[trigger] dispatcher_count(
                    self.root_listeners@,
                    k,
                ) == (if registry_contains(self.registry@, k) {
                    1nat
                } else {
                    0nat
                }) by {
                    lemma_dispatcher_count_push(pre_ls, x, k);
                    lemma_registry_contains_push(pre_reg, s, k);
                }
                assert forall|k: Seq<char>|
                    registry_contains(pre_reg, k) implies registry_contains(
                    self.registry@,
                    k,
                ) by {
                    lemma_registry_contains_push(pre_reg, s, k);
                }
                assert forall|k: Seq<char>| k != kind@ implies registry_contains(
                    self.registry@,
                    k,
                ) == registry_contains(pre_reg, k) by {
                    lemma_registry_contains_push(pre_reg, s, k);
                }
                assert forall|i: int, j: int| 0 <= i < j < self.registry@.len()
                    implies self.registry@[i]@ != self.registry@[j]@ by {
                    if j < pre_reg.len() {
                    } else {
                        assert(self.registry@[j]@ == kind@);
                        assert(!registry_contains(pre_reg, kind@));
                    }
                }
            }
        }
    }

    /// Delegated attach: stores `handler` for `(node, kind)` — overwriting
    /// any prior handler for that pair — and guarantees the kind's root
    /// dispatcher is live.
    pub fn add_event_listener(&mut self, node: usize, kind: &str, handler: Handler)
        requires
            old(self).wf(),
        ensures
            final(self).wf(),
            slot_lookup(final(self).store.slots@, node, delegation_key_of(kind@)) == Some(handler),
            forall|n: usize, k: Seq<char>| !(n == node && k == delegation_key_of(kind@))
                ==> slot_lookup(final(self).store.slots@, n, k)
                    == slot_lookup(old(self).store.slots@, n, k),
            registry_contains(final(self).registry@, kind@),
            dispatcher_count(final(self).root_listeners@, kind@) == 1,
            forall|k: Seq<char>| registry_contains(old(self).registry@, k)
                ==> registry_contains(final(self).registry@, k),
            forall|k: Seq<char>| k != kind@
                ==> dispatcher_count(final(self).root_listeners@, k)
                    == dispatcher_count(old(self).root_listeners@, k),
            registry_contains(old(self).registry@, kind@)
                ==> final(self).root_listeners == old(self).root_listeners,
    {
        self.store.set_handler(node, kind, handler);
        self.add_delegated_event_listener(kind);
        proof {
            assert forall|i: int| 0 <= i < self.store.slots@.len() implies {
                let key = (#[trigger] self.store.slots@[i]).key@;
                &&& key.len() >= 3
                &&& key.subrange(0, 3) == seq!['$', '$', '$']
                &&& registry_contains(self.registry@, key.skip(3))
            } by {
                let key = self.store.slots@[i].key@;
                if key == delegation_key_of(kind@) {
                    assert(key.subrange(0, 3) =~= seq!['$', '$', '$']);
                    assert(key.skip(3) =~= kind@);
                } else {
                    let m = choose|m: int| 0 <= m < old(self).store.slots@.len()
                        && (#[trigger] old(self).store.slots@[m]).key@ == key;
                    assert(old(self).store.slots@[m].key@.len() >= 3);
                }
            }
        }
    }
}

} // verus!
