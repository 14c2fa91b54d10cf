//! A depth-ordered worklist: an ordered set of `(depth, id)` entries used to
//! schedule layout work top-down (ascending) or bottom-up (descending).

use crate::tree::NodeId;
use vstd::prelude::*;

verus! {

/// A [`NodeId`] paired with its depth, depth first for sorting.
#[derive(Debug, Clone, Copy, PartialEq, Eq, Hash, Structural)]
pub struct DepthNode {
    pub depth: u32,
    pub id: NodeId,
}

impl DepthNode {
    pub fn new(depth: u32, id: NodeId) -> (r: Self)
        ensures
            r == (DepthNode { depth, id }),
    {
        DepthNode { depth, id }
    }
}

/// The strict total order on entries: by depth, then slot index, then
/// generation.
pub open spec fn entry_lt(a: DepthNode, b: DepthNode) -> bool {
    a.depth < b.depth || (a.depth == b.depth && a.id.pair().0 < b.id.pair().0) || (a.depth
        == b.depth && a.id.pair().0 == b.id.pair().0 && a.id.pair().1 < b.id.pair().1)
}

fn entry_lt_exec(a: &DepthNode, b: &DepthNode) -> (r: bool)
    ensures
        r == entry_lt(*a, *b),
{
    a.depth < b.depth || (a.depth == b.depth && a.id.0.index < b.id.0.index) || (a.depth == b.depth
        && a.id.0.index == b.id.0.index && a.id.0.version < b.id.0.version)
}

/// The order is total: two distinct entries compare one way or the other.
pub proof fn lemma_entry_lt_total(a: DepthNode, b: DepthNode)
    ensures
        a == b || entry_lt(a, b) || entry_lt(b, a),
        !(entry_lt(a, b) && entry_lt(b, a)),
{
}

/// An ordered set of `(depth, id)` entries, kept strictly ascending.
pub struct DepthSet {
    entries: Vec<DepthNode>,
}

impl DepthSet {
    /// The entries, ascending.
    pub closed spec fn view(self) -> Seq<DepthNode> {
        self.entries@
    }

    /// Strictly ascending order (which also means no duplicates).
    pub open spec fn wf(self) -> bool {
        forall|p: int, q: int| 0 <= p < q < self.view().len() ==> entry_lt(
            #[trigger] self.view()[p],
            #[trigger] self.view()[q],
        )
    }

    /// An empty worklist.
    pub fn new() -> (r: Self)
        ensures
            r.wf(),
            r.view() =~= Seq::<DepthNode>::empty(),
    {
        DepthSet { entries: Vec::new() }
    }

    /// The number of entries.
    pub fn len(&self) -> (r: usize)
        ensures
            r == self.view().len(),
    {
        self.entries.len()
    }

    /// Whether any work is pending.
    pub fn is_empty(&self) -> (r: bool)
        ensures
            r == (self.view().len() == 0),
    {
        self.entries.len() == 0
    }

    /// Inserts an entry, keeping the order; returns `true` if the entry was
    /// newly added.
    pub fn insert(&mut self, e: DepthNode) -> (r: bool)
        requires
            old(self).wf(),
        ensures
            final (self).wf(),
            r == !old(self).view().contains(e),
            r ==> exists|p: int|
                0 <= p <= old(self).view().len() && final (self).view() == #[trigger] old(
                    self,
                ).view().insert(p, e),
            !r ==> final (self).view() == old(self).view(),
            final (self).view().contains(e),
            forall|x: DepthNode|
                old(self).view().contains(x) ==> #[trigger] final (self).view().contains(x),
            forall|x: DepthNode|
                final (self).view().contains(x) ==> #[trigger] old(self).view().contains(x) || x
                    == e,
    {
        let ghost pre = self.entries@;
        let n = self.entries.len();
        let mut i: usize = 0;
        while i < n && entry_lt_exec(&self.entries[i], &e)
            invariant
                n == self.entries@.len(),
                0 <= i <= n,
                self.entries@ == pre,
                old(self).wf(),
                pre == old(self).view(),
                forall|p: int| 0 <= p < i ==> entry_lt(#[trigger] pre[p], e),
            decreases n - i,
        {
            i = i + 1;
        }
        if i < n {
            let cur = self.entries[i];
            if cur.depth == e.depth && cur.id.0.index == e.id.0.index && cur.id.0.version
                == e.id.0.version {
                proof {
                    assert(cur == e);
                    assert(old(self).view().contains(e));
                }
                return false;
            }
        }
        proof {
            assert(i < n ==> !entry_lt(pre[i as int], e));
            assert(i < n ==> entry_lt(e, pre[i as int])) by {
                if i < n {
                    lemma_entry_lt_total(pre[i as int], e);
                }
            }
            assert(!old(self).view().contains(e)) by {
                if old(self).view().contains(e) {
                    let q = choose|q: int| 0 <= q < pre.len() && pre[q] == e;
                    if q < i {
                        assert(entry_lt(pre[q], e));
                        lemma_entry_lt_total(e, e);
                    } else {
                        assert(i < n);
                        if q > i {
                            assert(entry_lt(pre[i as int], pre[q]));
                        }
                    }
                }
            }
        }
        self.entries.insert(i, e);
        proof {
            assert(self.entries@ == pre.insert(i as int, e));
            assert forall|p: int, q: int|
                0 <= p < q < self.view().len() implies entry_lt(
                #[trigger] self.view()[p],
                #[trigger] self.view()[q],
            ) by {
                let ii = i as int;
                if p < ii && q < ii {
                } else if p < ii && q == ii {
                } else if p < ii && q > ii {
                    assert(self.view()[q] == pre[q - 1]);
                    if p < ii - 1 || ii - 1 < q - 1 {
                    }
                    if ii <= q - 1 {
                        assert(entry_lt(e, pre[ii]));
                        if ii < q - 1 {
                            assert(entry_lt(pre[ii], pre[q - 1]));
                        }
                    }
                } else if p == ii {
                    assert(self.view()[q] == pre[q - 1]);
                    assert(entry_lt(e, pre[ii]));
                    if ii < q - 1 {
                        assert(entry_lt(pre[ii], pre[q - 1]));
                    }
                } else {
                    assert(self.view()[p] == pre[p - 1]);
                    assert(self.view()[q] == pre[q - 1]);
                }
            }
            assert(self.view()[i as int] == e);
            assert(self.view().contains(e));
            assert forall|x: DepthNode|
                old(self).view().contains(x) implies #[trigger] self.view().contains(x) by {
                let q = choose|q: int| 0 <= q < pre.len() && pre[q] == x;
                if q < i as int {
                    assert(self.view()[q] == x);
                } else {
                    assert(self.view()[q + 1] == x);
                }
            }
            assert forall|x: DepthNode|
                self.view().contains(x) implies #[trigger] old(self).view().contains(x) || x
                == e by {
                let q = choose|q: int| 0 <= q < self.view().len() && self.view()[q] == x;
                if q < i as int {
                    assert(pre[q] == x);
                } else if q > i as int {
                    assert(pre[q - 1] == x);
                }
            }
        }
        true
    }

    /// Removes and returns the smallest entry (the shallowest pending node).
    pub fn pop_first(&mut self) -> (r: Option<DepthNode>)
        requires
            old(self).wf(),
        ensures
            final (self).wf(),
            old(self).view().len() == 0 ==> r is None && final (self).view() == old(self).view(),
            old(self).view().len() > 0 ==> r == Some(old(self).view()[0]) && final (self).view()
                == old(self).view().drop_first(),
    {
        if self.entries.len() == 0 {
            return None;
        }
        let e = self.entries.remove(0);
        proof {
            assert(self.entries@ =~= old(self).view().drop_first());
        }
        Some(e)
    }

    /// Removes and returns the greatest entry (the deepest pending node).
    pub fn pop_last(&mut self) -> (r: Option<DepthNode>)
        requires
            old(self).wf(),
        ensures
            final (self).wf(),
            old(self).view().len() == 0 ==> r is None && final (self).view() == old(self).view(),
            old(self).view().len() > 0 ==> r == Some(old(self).view().last()) && final (
            self).view() == old(self).view().drop_last(),
    {
        let r = self.entries.pop();
        proof {
            if old(self).view().len() > 0 {
                assert(self.entries@ =~= old(self).view().drop_last());
            }
        }
        r
    }

    /// Reads the entry at a position.
    pub fn get_at(&self, i: usize) -> (r: DepthNode)
        requires
            i < self.view().len(),
        ensures
            r == self.view()[i as int],
    {
        self.entries[i]
    }
}

} // verus!
