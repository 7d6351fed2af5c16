//! Derived keys and the delegated handler store.
//!
//! A delegated handler is kept in a per-node slot addressed by a key derived
//! from the event kind: a reserved prefix followed by the kind's name. The
//! prefix keeps the slot out of the name space of ordinary attributes.

use vstd::prelude::*;
use crate::handler::Handler;

verus! {

/// The key under which a delegated handler for the kind named `name` is
/// stored: the reserved prefix `$$$` followed by the name.
pub open spec fn delegation_key_of(name: Seq<char>) -> Seq<char> {
    seq!['$', '$', '$'] + name
}

/// Derives the storage key for an event kind's delegated handler slot.
pub fn event_delegation_key(event_name: &str) -> (key: String)
    ensures
        key@ == delegation_key_of(event_name@),
{
    proof {
        reveal_strlit("$$$");
    }
    let mut n = String::from_str("$$$");
    n.append(event_name);
    proof {
        assert(n@ =~= delegation_key_of(event_name@));
    }
    n
}

/// Distinct event kinds derive distinct keys.
pub proof fn lemma_delegation_key_injective(a: Seq<char>, b: Seq<char>)
    requires
        delegation_key_of(a) == delegation_key_of(b),
    ensures
        a == b,
{
    assert(a =~= delegation_key_of(a).skip(3));
    assert(b =~= delegation_key_of(b).skip(3));
}

/// One slot of the delegated handler store: the handler attached to `node`
/// under the derived `key`.
pub struct Slot {
    /// The node the handler is attached to.
    pub node: usize,
    /// The derived key (reserved prefix plus the event kind's name).
    pub key: String,
    /// The stored callback.
    pub handler: Handler,
}

/// The handler stored for `(node, key)`: the first matching slot, scanning
/// left to right. The store keeps at most one slot per pair, so the first
/// match is the only one.
pub open spec fn slot_lookup(slots: Seq<Slot>, node: usize, key: Seq<char>) -> Option<Handler>
    decreases slots.len(),
{
    if slots.len() == 0 {
        None
    } else if slots[0].node == node && slots[0].key@ == key {
        Some(slots[0].handler)
    } else {
        slot_lookup(slots.drop_first(), node, key)
    }
}

/// How `slot_lookup` changes when a slot is appended: an existing binding
/// wins; otherwise the new slot answers exactly for its own pair.
proof fn lemma_slot_lookup_push(slots: Seq<Slot>, s: Slot, node: usize, key: Seq<char>)
    ensures
        slot_lookup(slots.push(s), node, key) == (if slot_lookup(slots, node, key) is Some {
            slot_lookup(slots, node, key)
        } else if s.node == node && s.key@ == key {
            Some(s.handler)
        } else {
            None::<Handler>
        }),
    decreases slots.len(),
{
    if slots.len() == 0 {
        assert(slots.push(s).drop_first() =~= Seq::<Slot>::empty());
    } else {
        assert(slots.push(s).drop_first() =~= slots.drop_first().push(s));
        lemma_slot_lookup_push(slots.drop_first(), s, node, key);
    }
}

/// How `slot_lookup` changes when the first slot matching `s`'s pair is
/// replaced by `s`: that pair now yields `s.handler`, every other pair is
/// unchanged.
proof fn lemma_slot_lookup_update(slots: Seq<Slot>, j: int, s: Slot, node: usize, key: Seq<char>)
    requires
        0 <= j < slots.len(),
        slots[j].node == s.node && slots[j].key@ == s.key@,
        forall|i: int| 0 <= i < j ==> !((#[trigger] slots[i]).node == s.node && slots[i].key@ == s.key@),
    ensures
        slot_lookup(slots.update(j, s), node, key) == (if node == s.node && key == s.key@ {
            Some(s.handler)
        } else {
            slot_lookup(slots, node, key)
        }),
    decreases j,
{
    let u = slots.update(j, s);
    if j == 0 {
        if node == s.node && key == s.key@ {
        } else {
            assert(u.drop_first() =~= slots.drop_first());
        }
    } else {
        assert(u[0] == slots[0]);
        assert(u.drop_first() =~= slots.drop_first().update(j - 1, s));
        lemma_slot_lookup_update(slots.drop_first(), j - 1, s, node, key);
    }
}

/// When no slot matches a pair, its lookup is absent.
proof fn lemma_slot_lookup_none(slots: Seq<Slot>, node: usize, key: Seq<char>)
    requires
        forall|i: int| 0 <= i < slots.len()
            ==> !((#[trigger] slots[i]).node == node && slots[i].key@ == key),
    ensures
        slot_lookup(slots, node, key) is None,
    decreases slots.len(),
{
    if slots.len() > 0 {
        assert(slots[0].node != node || slots[0].key@ != key);
        assert forall|i: int| 0 <= i < slots.drop_first().len()
            implies !((#[trigger] slots.drop_first()[i]).node == node
                && slots.drop_first()[i].key@ == key) by {
            assert(slots.drop_first()[i] == slots[i + 1]);
        }
        lemma_slot_lookup_none(slots.drop_first(), node, key);
    }
}

/// Appending a slot for a pair the store does not yet hold binds exactly
/// that pair and leaves every other pair unchanged.
proof fn lemma_slot_lookup_push_all(slots: Seq<Slot>, s: Slot)
    requires
        slot_lookup(slots, s.node, s.key@) is None,
    ensures
        slot_lookup(slots.push(s), s.node, s.key@) == Some(s.handler),
        forall|n: usize, k: Seq<char>| !(n == s.node && k == s.key@)
            ==> slot_lookup(slots.push(s), n, k) == slot_lookup(slots, n, k),
{
    lemma_slot_lookup_push(slots, s, s.node, s.key@);
    assert forall|n: usize, k: Seq<char>| !(n == s.node && k == s.key@)
        implies slot_lookup(slots.push(s), n, k) == slot_lookup(slots, n, k) by {
        lemma_slot_lookup_push(slots, s, n, k);
    }
}

/// Replacing the first slot of a pair rebinds exactly that pair and leaves
/// every other pair unchanged.
proof fn lemma_slot_lookup_update_all(slots: Seq<Slot>, j: int, s: Slot)
    requires
        0 <= j < slots.len(),
        slots[j].node == s.node && slots[j].key@ == s.key@,
        forall|i: int| 0 <= i < j ==> !((#[trigger] slots[i]).node == s.node && slots[i].key@ == s.key@),
    ensures
        slot_lookup(slots.update(j, s), s.node, s.key@) == Some(s.handler),
        forall|n: usize, k: Seq<char>| !(n == s.node && k == s.key@)
            ==> slot_lookup(slots.update(j, s), n, k) == slot_lookup(slots, n, k),
{
    lemma_slot_lookup_update(slots, j, s, s.node, s.key@);
    assert forall|n: usize, k: Seq<char>| !(n == s.node && k == s.key@)
        implies slot_lookup(slots.update(j, s), n, k) == slot_lookup(slots, n, k) by {
        lemma_slot_lookup_update(slots, j, s, n, k);
    }
}

/// The per-node, per-kind store of delegated handlers: an explicit side
/// table from `(node, derived key)` to the stored callback, holding at most
/// one slot per pair.
pub struct HandlerStore {
    /// The slots, one per registered `(node, key)` pair.
    pub slots: Vec<Slot>,
}

impl HandlerStore {
    /// An empty store.
    pub fn new() -> (store: HandlerStore)
        ensures
            store.slots@ == Seq::<Slot>::empty(),
    {
        HandlerStore { slots: Vec::new() }
    }

    /// Stores `handler` for `(node, kind)`, overwriting any prior handler
    /// for that exact pair and leaving every other pair untouched.
    pub fn set_handler(&mut self, node: usize, kind: &str, handler: Handler)
        ensures
            slot_lookup(final(self).slots@, node, delegation_key_of(kind@)) == Some(handler),
            forall|n: usize, k: Seq<char>| !(n == node && k == delegation_key_of(kind@))
                ==> slot_lookup(final(self).slots@, n, k) == slot_lookup(old(self).slots@, n, k),
            forall|i: int| 0 <= i < final(self).slots@.len()
                ==> (#[trigger] final(self).slots@[i]).key@ == delegation_key_of(kind@)
                    || (exists|j: int| 0 <= j < old(self).slots@.len()
                        && (#[trigger] old(self).slots@[j]).key@ == final(self).slots@[i].key@),
    {
        let key = event_delegation_key(kind);
        let n_slots = self.slots.len();
        let mut j: usize = 0;
        while j < n_slots
            invariant
                n_slots == self.slots@.len(),
                j <= n_slots,
                self.slots@ == old(self).slots@,
                key@ == delegation_key_of(kind@),
                forall|i: int| 0 <= i < j
                    ==> !((#[trigger] self.slots@[i]).node == node && self.slots@[i].key@ == key@),
            decreases n_slots - j,
        {
            if self.slots[j].node == node && self.slots[j].key == key {
                let ghost pre = self.slots@;
                self.slots.remove(j);
                self.slots.insert(j, Slot { node, key, handler });
                proof {
                    let s = self.slots@[j as int];
                    assert(self.slots@ =~= pre.update(j as int, s));
                    lemma_slot_lookup_update_all(pre, j as int, s);
                    assert forall|i: int| 0 <= i < self.slots@.len()
                        implies (#[trigger] self.slots@[i]).key@ == delegation_key_of(kind@)
                            || (exists|m: int| 0 <= m < pre.len()
                                && (#[trigger] pre[m]).key@ == self.slots@[i].key@) by {
                        if i != j {
                            assert(pre[i].key@ == self.slots@[i].key@);
                        }
                    }
                }
                return;
            }
            j += 1;
        }
        let ghost pre = self.slots@;
        self.slots.push(Slot { node, key, handler });
        proof {
            let s = self.slots@.last();
            assert(self.slots@ =~= pre.push(s));
            lemma_slot_lookup_none(pre, node, key@);
            lemma_slot_lookup_push_all(pre, s);
            assert forall|i: int| 0 <= i < self.slots@.len()
                implies (#[trigger] self.slots@[i]).key@ == delegation_key_of(kind@)
                    || (exists|m: int| 0 <= m < pre.len()
                        && (#[trigger] pre[m]).key@ == self.slots@[i].key@) by {
                if i < pre.len() {
                    assert(pre[i].key@ == self.slots@[i].key@);
                }
            }
        }
    }

    /// Looks the handler for `(node, kind)` up; absence is a normal,
    /// non-error outcome.
    pub fn get_handler(&self, node: usize, kind: &str) -> (r: Option<Handler>)
        ensures
            r == slot_lookup(self.slots@, node, delegation_key_of(kind@)),
    {
        let key = event_delegation_key(kind);
        self.get_handler_by_key(node, &key)
    }

    /// Looks the handler for `(node, key)` up, the key already derived.
    pub fn get_handler_by_key(&self, node: usize, key: &String) -> (r: Option<Handler>)
        ensures
            r == slot_lookup(self.slots@, node, key@),
    {
        let n_slots = self.slots.len();
        let mut j: usize = 0;
        proof {
            assert(self.slots@.skip(0) =~= self.slots@);
        }
        while j < n_slots
            invariant
                n_slots == self.slots@.len(),
                0 <= j <= n_slots,
                slot_lookup(self.slots@, node, key@)
                    == slot_lookup(self.slots@.skip(j as int), node, key@),
            decreases n_slots - j,
        {
            proof {
                assert(self.slots@.skip(j as int)[0] == self.slots@[j as int]);
                assert(self.slots@.skip(j as int).drop_first() =~= self.slots@.skip(j as int + 1));
            }
            if self.slots[j].node == node && self.slots[j].key == *key {
                return Some(self.slots[j].handler);
            }
            j += 1;
        }
        proof {
            assert(self.slots@.skip(n_slots as int) =~= Seq::<Slot>::empty());
        }
        None
    }
}

} // verus!
