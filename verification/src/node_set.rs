//! A set of node handles, backed by a hash set.

use crate::tree::NodeId;
use vstd::prelude::*;

verus! {

/// The handles a [`NodeSet`] holds, as `(slot index, generation)` pairs.
pub uninterp spec fn node_set_contents(s: NodeSet) -> Set<(usize, u32)>;

/// A handle sequence as a pair sequence.
pub open spec fn pairs_of(s: Seq<NodeId>) -> Seq<(usize, u32)> {
    s.map_values(|id: NodeId| id.pair())
}

/// An unordered set of [`NodeId`]s.
///
/// Relies on `hashbrown::HashSet`: a hash set of node handles with O(1)
/// insertion, removal and membership.
#[verifier::external_body]
pub struct NodeSet {
    inner: hashbrown::HashSet<NodeId>,
}

impl NodeSet {
    /// Relies on `hashbrown::HashSet::new`: the new set is empty.
    #[verifier::external_body]
    pub fn new() -> (r: Self)
        ensures
            node_set_contents(r) == Set::<(usize, u32)>::empty(),
            node_set_contents(r).finite(),
    {
        NodeSet { inner: hashbrown::HashSet::new() }
    }

    /// Relies on `hashbrown::HashSet::insert`: afterwards the set holds the
    /// value and everything it held before.
    #[verifier::external_body]
    pub fn insert(&mut self, id: NodeId)
        ensures
            node_set_contents(*final (self)) == node_set_contents(*old(self)).insert(id.pair()),
            node_set_contents(*old(self)).finite() ==> node_set_contents(*final (self)).finite(),
    {
        self.inner.insert(id);
    }

    /// Relies on `hashbrown::HashSet::remove`: afterwards the set holds
    /// everything it held before except the value.
    #[verifier::external_body]
    pub fn remove(&mut self, id: &NodeId)
        ensures
            node_set_contents(*final (self)) == node_set_contents(*old(self)).remove(id.pair()),
            node_set_contents(*old(self)).finite() ==> node_set_contents(*final (self)).finite(),
    {
        self.inner.remove(id);
    }

    /// Relies on `hashbrown::HashSet::contains`.
    #[verifier::external_body]
    pub fn contains(&self, id: &NodeId) -> (r: bool)
        ensures
            r == node_set_contents(*self).contains(id.pair()),
    {
        self.inner.contains(id)
    }

    /// Relies on `hashbrown::HashSet::len`: the number of distinct values
    /// held.
    #[verifier::external_body]
    pub fn len(&self) -> (r: usize)
        requires
            node_set_contents(*self).finite(),
        ensures
            r == node_set_contents(*self).len(),
    {
        self.inner.len()
    }

    /// Relies on `hashbrown::HashSet::iter`: every held value exactly once,
    /// in no promised order.
    #[verifier::external_body]
    pub fn to_ids(&self) -> (r: Vec<NodeId>)
        ensures
            pairs_of(r@).no_duplicates(),
            forall|t: int| 0 <= t < r@.len() ==> node_set_contents(*self).contains(
                #[trigger] pairs_of(r@)[t],
            ),
            forall|p: (usize, u32)|
                node_set_contents(*self).contains(p) ==> #[trigger] pairs_of(r@).contains(p),
    {
        self.inner.iter().copied().collect()
    }
}

} // verus!
