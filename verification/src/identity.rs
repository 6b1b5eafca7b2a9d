//! The identity map: a bijective table between the diff engine's element
//! handles and the retained tree's node identities.
use vstd::prelude::*;

verus! {

/// A handle that the diff engine assigns to an element. Handle 0 always
/// denotes the root of the tree.
#[derive(Clone, Copy, Debug, PartialEq, Eq, Hash, Structural)]
pub struct ElementId(pub u64);

/// The identity of a node of the retained tree.
#[derive(Clone, Copy, Debug, PartialEq, Eq, Hash, Structural)]
pub struct NodeId(pub u64);

/// The error of a lookup whose key has no partner.
#[derive(Clone, Copy, Debug, PartialEq, Eq, Structural)]
pub struct NotBound;

/// A hash table from 64-bit keys to 64-bit values, kept in a
/// `bevy::utils::HashMap`. Verus does not look inside; what the table holds
/// is `table_entries`.
#[verifier::external_body]
pub struct IdTable {
    inner: bevy::utils::HashMap<u64, u64>,
}

/// The key-value pairs that a table holds.
pub uninterp spec fn table_entries(table: IdTable) -> Map<u64, u64>;

/// `hashbrown::HashMap::new`: the table it makes holds no pair.
#[verifier::external_body]
fn table_new() -> (table: IdTable)
    ensures
        table_entries(table).dom() == Set::<u64>::empty(),
{
    IdTable { inner: bevy::utils::HashMap::new() }
}

/// `hashbrown::HashMap::insert`: afterwards `key` maps to `value` and every
/// other key is as before; the value that `key` had before, if any, comes
/// back.
#[verifier::external_body]
fn table_insert(table: &mut IdTable, key: u64, value: u64) -> (previous: Option<u64>)
    ensures
        table_entries(*final(table)) == table_entries(*old(table)).insert(key, value),
        previous == (if table_entries(*old(table)).contains_key(key) {
            Some(table_entries(*old(table))[key])
        } else {
            None
        }),
{
    table.inner.insert(key, value)
}

/// `hashbrown::HashMap::remove`: afterwards `key` is absent and every other
/// key is as before; the value that `key` had, if any, comes back.
#[verifier::external_body]
fn table_remove(table: &mut IdTable, key: u64) -> (removed: Option<u64>)
    ensures
        table_entries(*final(table)) == table_entries(*old(table)).remove(key),
        removed == (if table_entries(*old(table)).contains_key(key) {
            Some(table_entries(*old(table))[key])
        } else {
            None
        }),
{
    table.inner.remove(&key)
}

/// `hashbrown::HashMap::get`: the value that `key` maps to, if any.
#[verifier::external_body]
fn table_get(table: &IdTable, key: u64) -> (found: Option<u64>)
    ensures
        found == (if table_entries(*table).contains_key(key) {
            Some(table_entries(*table)[key])
        } else {
            None
        }),
{
    table.inner.get(&key).copied()
}

/// The pairs that are left when every pair of the node `id` goes.
pub open spec fn without_node(ids: Map<ElementId, NodeId>, id: NodeId) -> Map<ElementId, NodeId> {
    ids.remove_keys(Set::new(|h: ElementId| ids.contains_key(h) && ids[h] == id))
}

/// The pairs after `handle` was paired with `id`: what either of them was
/// paired with before is forgotten.
pub open spec fn bound(ids: Map<ElementId, NodeId>, handle: ElementId, id: NodeId) -> Map<
    ElementId,
    NodeId,
> {
    without_node(ids, id).insert(handle, id)
}

/// The pairs that are left when every pair of a node in `dead` goes.
pub open spec fn purged(ids: Map<ElementId, NodeId>, dead: Set<NodeId>) -> Map<ElementId, NodeId> {
    ids.remove_keys(Set::new(|h: ElementId| ids.contains_key(h) && dead.contains(ids[h])))
}

/// The bijection between element handles and node identities. Each handle
/// has at most one node and each node at most one handle; no half of a pair
/// is ever left behind.
pub struct IdentityMap {
    by_handle: IdTable,
    by_node: IdTable,
}

impl View for IdentityMap {
    type V = Map<ElementId, NodeId>;

    /// The pairs, read from handle to node.
    closed spec fn view(&self) -> Map<ElementId, NodeId> {
        Map::new(
            |h: ElementId| table_entries(self.by_handle).contains_key(h.0),
            |h: ElementId| NodeId(table_entries(self.by_handle)[h.0]),
        )
    }
}

impl IdentityMap {
    /// The pairs, read from node to handle.
    pub closed spec fn inverse(&self) -> Map<NodeId, ElementId> {
        Map::new(
            |n: NodeId| table_entries(self.by_node).contains_key(n.0),
            |n: NodeId| ElementId(table_entries(self.by_node)[n.0]),
        )
    }

    /// The two directions hold the same pairs.
    pub closed spec fn wf(&self) -> bool {
        forall|h: u64, n: u64|
            table_entries(self.by_handle).contains_pair(h, n) <==> #[trigger] table_entries(
                self.by_node,
            ).contains_pair(n, h)
    }

    /// In a well-formed map the two directions are inverse to each other:
    /// resolving the handle of a node gives the node, the handle of the node
    /// that a handle resolves to is that handle, and no handle and no node
    /// stands in two pairs.
    pub proof fn lemma_bijection(&self)
        requires
            self.wf(),
        ensures
            forall|h: ElementId, n: NodeId|
                self@.contains_pair(h, n) <==> #[trigger] self.inverse().contains_pair(n, h),
            forall|h: ElementId| #[trigger]
                self@.contains_key(h) ==> self.inverse().contains_key(self@[h])
                    && self.inverse()[self@[h]] == h,
            forall|n: NodeId| #[trigger]
                self.inverse().contains_key(n) ==> self@.contains_key(self.inverse()[n])
                    && self@[self.inverse()[n]] == n,
            forall|h1: ElementId, h2: ElementId|
                self@.contains_key(h1) && self@.contains_key(h2) && self@[h1] == self@[h2] ==> h1
                    == h2,
            forall|n1: NodeId, n2: NodeId|
                self.inverse().contains_key(n1) && self.inverse().contains_key(n2)
                    && self.inverse()[n1] == self.inverse()[n2] ==> n1 == n2,
    {
        let f = table_entries(self.by_handle);
        let r = table_entries(self.by_node);
        assert forall|h: ElementId, n: NodeId|
            self@.contains_pair(h, n) <==> #[trigger] self.inverse().contains_pair(n, h) by {
            assert(f.contains_pair(h.0, n.0) <==> r.contains_pair(n.0, h.0));
        }
        assert forall|h: ElementId| #[trigger] self@.contains_key(h) implies self.inverse().contains_key(
            self@[h],
        ) && self.inverse()[self@[h]] == h by {
            assert(self@.contains_pair(h, self@[h]));
            assert(self.inverse().contains_pair(self@[h], h));
        }
        assert forall|n: NodeId| #[trigger] self.inverse().contains_key(n) implies self@.contains_key(
            self.inverse()[n],
        ) && self@[self.inverse()[n]] == n by {
            assert(self.inverse().contains_pair(n, self.inverse()[n]));
            assert(self@.contains_pair(self.inverse()[n], n));
        }
    }

    /// An identity map without pairs.
    pub fn new() -> (ids: IdentityMap)
        ensures
            ids.wf(),
            ids@ == Map::<ElementId, NodeId>::empty(),
            ids.inverse() == Map::<NodeId, ElementId>::empty(),
    {
        let ids = IdentityMap { by_handle: table_new(), by_node: table_new() };
        assert(ids@ =~= Map::<ElementId, NodeId>::empty());
        assert(ids.inverse() =~= Map::<NodeId, ElementId>::empty());
        ids
    }

    /// Pairs `handle` with `id`. A pair that either of them stood in before
    /// goes, in both directions.
    pub fn bind(&mut self, handle: ElementId, id: NodeId)
        requires
            old(self).wf(),
        ensures
            final(self).wf(),
            final(self)@ == bound(old(self)@, handle, id),
    {
        proof {
            old(self).lemma_bijection();
        }
        let ghost f0 = table_entries(self.by_handle);
        let ghost r0 = table_entries(self.by_node);
        if let Some(h_old) = table_remove(&mut self.by_node, id.0) {
            assert(r0.contains_pair(id.0, h_old));
            table_remove(&mut self.by_handle, h_old);
        }
        let ghost f1 = table_entries(self.by_handle);
        let ghost r1 = table_entries(self.by_node);
        assert forall|h: u64, n: u64| f1.contains_pair(h, n) <==> #[trigger] r1.contains_pair(
            n,
            h,
        ) by {
            assert(f0.contains_pair(h, n) <==> r0.contains_pair(n, h));
            if r0.contains_key(id.0) {
                assert(f0.contains_pair(r0[id.0], id.0) <==> r0.contains_pair(id.0, r0[id.0]));
                if h == r0[id.0] && f0.contains_key(h) {
                    assert(f0.contains_pair(h, f0[h]) <==> r0.contains_pair(f0[h], h));
                }
            }
        }
        if let Some(n_old) = table_insert(&mut self.by_handle, handle.0, id.0) {
            assert(f1.contains_pair(handle.0, n_old) <==> r1.contains_pair(n_old, handle.0));
            table_remove(&mut self.by_node, n_old);
        }
        table_insert(&mut self.by_node, id.0, handle.0);
        let ghost f3 = table_entries(self.by_handle);
        let ghost r3 = table_entries(self.by_node);
        assert forall|h: u64, n: u64| f3.contains_pair(h, n) <==> #[trigger] r3.contains_pair(
            n,
            h,
        ) by {
            assert(f1.contains_pair(h, n) <==> r1.contains_pair(n, h));
            if f1.contains_key(handle.0) {
                assert(f1.contains_pair(handle.0, f1[handle.0]) <==> r1.contains_pair(
                    f1[handle.0],
                    handle.0,
                ));
            }
            if r1.contains_key(n) {
                assert(f1.contains_pair(r1[n], n) <==> r1.contains_pair(n, r1[n]));
            }
            assert(!r1.contains_key(id.0));
        }
        assert(final(self)@ =~= bound(old(self)@, handle, id)) by {
            assert forall|h: ElementId| #[trigger]
                final(self)@.contains_key(h) <==> bound(old(self)@, handle, id).contains_key(
                    h,
                ) by {
                if old(self)@.contains_key(h) {
                    assert(f0.contains_pair(h.0, f0[h.0]) <==> r0.contains_pair(f0[h.0], h.0));
                }
            }
        }
    }

    /// The node that `handle` is paired with.
    pub fn resolve(&self, handle: ElementId) -> (found: Result<NodeId, NotBound>)
        ensures
            found == (if self@.contains_key(handle) {
                Ok::<NodeId, NotBound>(self@[handle])
            } else {
                Err::<NodeId, NotBound>(NotBound)
            }),
    {
        match table_get(&self.by_handle, handle.0) {
            Some(n) => Ok(NodeId(n)),
            None => Err(NotBound),
        }
    }

    /// The handle that `id` is paired with.
    pub fn reverse(&self, id: NodeId) -> (found: Result<ElementId, NotBound>)
        ensures
            found == (if self.inverse().contains_key(id) {
                Ok::<ElementId, NotBound>(self.inverse()[id])
            } else {
                Err::<ElementId, NotBound>(NotBound)
            }),
            self.wf() ==> match found {
                Ok(handle) => self@.contains_pair(handle, id),
                Err(_) => forall|h: ElementId| !self@.contains_pair(h, id),
            },
    {
        proof {
            if self.wf() {
                self.lemma_bijection();
                assert forall|h: ElementId| !self.inverse().contains_key(id) implies !self@.contains_pair(
                    h,
                    id,
                ) by {
                    if self@.contains_pair(h, id) {
                        assert(self.inverse().contains_pair(id, h));
                    }
                }
            }
        }
        match table_get(&self.by_node, id.0) {
            Some(h) => Ok(ElementId(h)),
            None => Err(NotBound),
        }
    }

    /// Removes the pair of `handle`, if there is one, in both directions.
    pub fn unbind(&mut self, handle: ElementId)
        requires
            old(self).wf(),
        ensures
            final(self).wf(),
            final(self)@ == old(self)@.remove(handle),
    {
        let ghost f0 = table_entries(self.by_handle);
        let ghost r0 = table_entries(self.by_node);
        if let Some(n_old) = table_remove(&mut self.by_handle, handle.0) {
            assert(f0.contains_pair(handle.0, n_old) <==> r0.contains_pair(n_old, handle.0));
            table_remove(&mut self.by_node, n_old);
        }
        let ghost f1 = table_entries(self.by_handle);
        let ghost r1 = table_entries(self.by_node);
        assert forall|h: u64, n: u64| f1.contains_pair(h, n) <==> #[trigger] r1.contains_pair(
            n,
            h,
        ) by {
            assert(f0.contains_pair(h, n) <==> r0.contains_pair(n, h));
            if f0.contains_key(handle.0) {
                assert(f0.contains_pair(handle.0, f0[handle.0]) <==> r0.contains_pair(
                    f0[handle.0],
                    handle.0,
                ));
                if r0.contains_key(n) {
                    assert(f0.contains_pair(r0[n], n) <==> r0.contains_pair(n, r0[n]));
                }
            }
        }
        assert(final(self)@ =~= old(self)@.remove(handle));
    }

    /// Removes the pair of `id`, if there is one, in both directions.
    pub fn unbind_by_id(&mut self, id: NodeId)
        requires
            old(self).wf(),
        ensures
            final(self).wf(),
            final(self)@ == without_node(old(self)@, id),
            final(self).inverse() == old(self).inverse().remove(id),
    {
        proof {
            old(self).lemma_bijection();
        }
        let ghost f0 = table_entries(self.by_handle);
        let ghost r0 = table_entries(self.by_node);
        if let Some(h_old) = table_remove(&mut self.by_node, id.0) {
            assert(f0.contains_pair(h_old, id.0) <==> r0.contains_pair(id.0, h_old));
            table_remove(&mut self.by_handle, h_old);
        }
        let ghost f1 = table_entries(self.by_handle);
        let ghost r1 = table_entries(self.by_node);
        assert forall|h: u64, n: u64| f1.contains_pair(h, n) <==> #[trigger] r1.contains_pair(
            n,
            h,
        ) by {
            assert(f0.contains_pair(h, n) <==> r0.contains_pair(n, h));
            if r0.contains_key(id.0) {
                assert(f0.contains_pair(r0[id.0], id.0) <==> r0.contains_pair(id.0, r0[id.0]));
                if f0.contains_key(h) {
                    assert(f0.contains_pair(h, f0[h]) <==> r0.contains_pair(f0[h], h));
                }
            }
        }
        assert(final(self)@ =~= without_node(old(self)@, id)) by {
            assert forall|h: ElementId| #[trigger]
                final(self)@.contains_key(h) <==> without_node(old(self)@, id).contains_key(
                    h,
                ) by {
                if old(self)@.contains_key(h) {
                    assert(f0.contains_pair(h.0, f0[h.0]) <==> r0.contains_pair(f0[h.0], h.0));
                }
            }
        }
        assert(final(self).inverse() =~= old(self).inverse().remove(id));
    }
}

} // verus!
