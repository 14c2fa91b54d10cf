//! The layout tree: a forest of rectangle nodes in a sparse generational
//! arena, with parent/child links, depths, and the bookkeeping that drives
//! incremental relayout and translation propagation.

use crate::depth_set::{DepthNode, DepthSet};
use crate::layout::LayoutSolver;
use crate::geom::Vec2;
use crate::node::{coord_limit, RectNode};
use crate::node_set::{node_set_contents, NodeSet};
use crate::sparse_map::{Key, SparseMap};
use vstd::prelude::*;

verus! {

/// A stable handle for a node of the tree: valid from insertion until the
/// node (or an ancestor) is removed.
#[derive(Debug, Clone, Copy, Hash, PartialEq, Eq, PartialOrd, Ord, Structural)]
pub struct NodeId(pub Key);

impl NodeId {
    /// The handle as a `(slot index, generation)` pair.
    pub open spec fn pair(self) -> (usize, u32) {
        (self.0.index, self.0.version)
    }
}

/// A forest of [`RectNode`]s with incremental relayout bookkeeping.
pub struct Rectree {
    root_ids: NodeSet,
    nodes: SparseMap<RectNode>,
    scheduled_relayout: DepthSet,
    mutated_translations: DepthSet,
}

impl Rectree {
    /// Whether a handle refers to a live node.
    pub closed spec fn live(self, k: Key) -> bool {
        self.nodes.spec_live(k)
    }

    /// The node behind a live handle.
    pub closed spec fn node_at(self, k: Key) -> RectNode {
        self.nodes.spec_get(k)
    }

    /// The root set, as handle pairs.
    pub closed spec fn roots(self) -> Set<(usize, u32)> {
        node_set_contents(self.root_ids)
    }

    /// The pending relayout entries, ascending by depth.
    pub closed spec fn sched(self) -> Seq<DepthNode> {
        self.scheduled_relayout.view()
    }

    /// The pending translation entries, ascending by depth.
    pub closed spec fn muts(self) -> Seq<DepthNode> {
        self.mutated_translations.view()
    }

    /// The underlying arena, for size bookkeeping in contracts.
    pub closed spec fn slot_count(self) -> int {
        self.nodes.slot_count()
    }

    /// The world-translation a node's local translation is measured
    /// against: its parent's world translation, or the origin for roots.
    pub open spec fn base_world(self, k: Key) -> Vec2 {
        match self.node_at(k).spec_parent() {
            Some(p) => self.node_at(p.0).spec_world(),
            None => Vec2 { x: 0, y: 0 },
        }
    }

    /// The world-sum law at one node: its world translation is its local
    /// translation offset by its parent's world translation.
    pub open spec fn law(self, k: Key) -> bool {
        self.node_at(k).spec_world().x == self.node_at(k).spec_local().x + self.base_world(
            k,
        ).x && self.node_at(k).spec_world().y == self.node_at(k).spec_local().y
            + self.base_world(k).y
    }

    /// Whether `k` lies in the subtree rooted at `a`, following at most
    /// `fuel` parent links.
    pub open spec fn in_subtree_fuel(self, a: Key, k: Key, fuel: nat) -> bool
        decreases fuel,
    {
        k == a || (fuel > 0 && match self.node_at(k).spec_parent() {
            Some(p) => self.live(p.0) && self.in_subtree_fuel(a, p.0, (fuel - 1) as nat),
            None => false,
        })
    }

    /// Whether `k` lies in the subtree rooted at `a`.
    pub open spec fn in_subtree(self, a: Key, k: Key) -> bool {
        self.in_subtree_fuel(a, k, self.node_at(k).spec_depth() as nat)
    }

    /// The arena's own free-list consistency.
    pub closed spec fn arena_wf(self) -> bool {
        self.nodes.wf()
    }

    /// The worklists are kept strictly ordered.
    pub closed spec fn worklists_wf(self) -> bool {
        self.scheduled_relayout.wf() && self.mutated_translations.wf()
    }

    /// Structural well-formedness of the whole tree.
    pub open spec fn wf(self) -> bool {
        &&& self.arena_wf()
        &&& self.roots().finite()
        &&& forall|k: Key|
            self.roots().contains(#[trigger] NodeId(k).pair()) <==> self.live(k) && self.node_at(
                k,
            ).spec_parent() is None
        &&& forall|k: Key|
            #[trigger] self.live(k) ==> match self.node_at(k).spec_parent() {
                Some(p) => self.live(p.0) && self.node_at(p.0).spec_depth() + 1 == self.node_at(k).spec_depth(),
                None => self.node_at(k).spec_depth() == 0,
            }
        &&& forall|k: Key, c: Key|
            #![trigger self.node_at(k).spec_children().contains(NodeId(c).pair())]
            #![trigger self.live(k), self.node_at(c).spec_parent()]
            self.live(k) ==> (self.node_at(k).spec_children().contains(NodeId(c).pair())
                <==> self.live(c) && self.node_at(c).spec_parent() == Some(NodeId(k)))
        &&& forall|k: Key|
            #[trigger] self.live(k) ==> self.node_at(k).spec_children().finite()
        &&& forall|k: Key| #[trigger] self.live(k) ==> self.node_at(k).spec_depth() < self.slot_count()
        &&& forall|k: Key| #[trigger] self.live(k) ==> self.node_at(k).spec_depth() < 0x4000_0000
        &&& forall|k: Key| #[trigger] self.live(k) ==> self.node_at(k).local_in_range()
        &&& forall|k: Key|
            #[trigger] self.live(k) ==> -(self.node_at(k).spec_depth() + 1) * coord_limit() <= self.node_at(
                k,
            ).spec_world().x <= (self.node_at(k).spec_depth() + 1) * coord_limit() && -(self.node_at(
                k,
            ).spec_depth() + 1) * coord_limit() <= self.node_at(k).spec_world().y <= (self.node_at(k).spec_depth() + 1) * coord_limit()
        &&& self.worklists_wf()
    }

    /// Translation coherence: wherever the world-sum law is broken, a
    /// pending translation entry covers the break from above.
    pub open spec fn trans_ok(self) -> bool {
        forall|k: Key|
            #[trigger] self.live(k) && !self.law(k) ==> exists|e: DepthNode|
                #[trigger] self.muts().contains(e) && self.live(e.id.0) && self.in_subtree(
                    e.id.0,
                    k,
                ) && self.node_at(e.id.0).spec_local_mutated()
    }

    /// Creates an empty tree.
    pub fn new() -> (r: Self)
        ensures
            r.wf(),
            r.trans_ok(),
            forall|k: Key| !r.live(k),
            r.roots() =~= Set::<(usize, u32)>::empty(),
            r.sched() =~= Seq::<DepthNode>::empty(),
            r.muts() =~= Seq::<DepthNode>::empty(),
            r.slot_count() == 0,
    {
        Rectree {
            root_ids: NodeSet::new(),
            nodes: SparseMap::new(),
            scheduled_relayout: DepthSet::new(),
            mutated_translations: DepthSet::new(),
        }
    }

    /// Looks a node up; `None` for stale or foreign handles.
    pub fn get_node(&self, id: &NodeId) -> (r: Option<&RectNode>)
        ensures
            match r {
                Some(node) => self.live(id.0) && *node == self.node_at(id.0),
                None => !self.live(id.0),
            },
    {
        self.nodes.get(&id.0)
    }

    /// Looks a live node up; using a stale handle is a caller error, which
    /// this assertive form rules out by precondition.
    pub fn get(&self, id: &NodeId) -> (r: &RectNode)
        requires
            self.live(id.0),
        ensures
            *r == self.node_at(id.0),
    {
        self.nodes.get(&id.0).unwrap()
    }

    /// The set of root handles (nodes without a parent).
    pub fn root_ids(&self) -> (r: &NodeSet)
        ensures
            node_set_contents(*r) == self.roots(),
    {
        &self.root_ids
    }

    /// Whether a call to `layout` has pending work.
    pub fn needs_relayout(&self) -> (r: bool)
        ensures
            r == (self.sched().len() > 0),
    {
        !self.scheduled_relayout.is_empty()
    }
}


impl Rectree {
    /// The keys on the parent chain from `k` up, nearest first.
    pub open spec fn chain_keys(self, k: Key, fuel: nat) -> Seq<Key>
        decreases fuel,
    {
        match self.node_at(k).spec_parent() {
            Some(p) => if fuel > 0 {
                seq![k] + self.chain_keys(p.0, (fuel - 1) as nat)
            } else {
                seq![k]
            },
            None => seq![k],
        }
    }

    /// The parent chain of a live node consists of `depth + 1` live nodes
    /// whose depths count down to zero and whose slots are all distinct.
    proof fn lemma_chain(self, k: Key)
        requires
            self.wf(),
            self.live(k),
        ensures
            ({
                let c = self.chain_keys(k, self.node_at(k).spec_depth() as nat);
                &&& c.len() == self.node_at(k).spec_depth() + 1
                &&& forall|t: int|
                    0 <= t < c.len() ==> #[trigger] self.live(c[t]) && self.node_at(
                        c[t],
                    ).spec_depth() == self.node_at(k).spec_depth() - t
            }),
        decreases self.node_at(k).spec_depth(),
    {
        let d = self.node_at(k).spec_depth() as nat;
        let c = self.chain_keys(k, d);
        match self.node_at(k).spec_parent() {
            Some(p) => {
                assert(self.node_at(p.0).spec_depth() + 1 == self.node_at(k).spec_depth());
                self.lemma_chain(p.0);
                let cp = self.chain_keys(p.0, (d - 1) as nat);
                assert(self.node_at(p.0).spec_depth() as nat == (d - 1) as nat);
                assert(c == seq![k] + cp);
                assert forall|t: int| 0 <= t < c.len() implies #[trigger] self.live(c[t])
                    && self.node_at(c[t]).spec_depth() == self.node_at(k).spec_depth() - t by {
                    if t == 0 {
                        assert(c[0] == k);
                    } else {
                        assert(c[t] == cp[t - 1]);
                    }
                }
            },
            None => {
                assert(c == seq![k]);
            },
        }
    }

    /// A live node's depth is strictly below the number of occupied slots:
    /// its parent chain occupies that many distinct slots, and `spare` (a
    /// vacant or out-of-range slot) is not among them.
    proof fn lemma_depth_bound(self, k: Key, spare: usize)
        requires
            self.wf(),
            self.live(k),
            spare as int == self.slot_count() || (spare < self.slot_count()
                && self.nodes.value_of(spare as int) is None),
        ensures
            self.node_at(k).spec_depth() + 2 <= self.slot_count() + (if spare as int
                == self.slot_count() {
                1int
            } else {
                0int
            }),
    {
        crate::sparse_map::lemma_slot_count_bound(&self.nodes);
        let d = self.node_at(k).spec_depth() as nat;
        self.lemma_chain(k);
        let c = self.chain_keys(k, d);
        let idx = c.map_values(|q: Key| q.index).push(spare);
        assert(idx.len() == d + 2);
        let bound = self.slot_count() + (if spare as int == self.slot_count() {
            1int
        } else {
            0int
        });
        assert forall|t: int| 0 <= t < idx.len() implies 0 <= #[trigger] idx[t] < bound by {
            if t < c.len() {
                assert(idx[t] == c[t].index);
                assert(self.live(c[t]));
            } else {
                assert(idx[t] == spare);
            }
        }
        assert forall|t1: int, t2: int|
            0 <= t1 < idx.len() && 0 <= t2 < idx.len() && t1 != t2 implies idx[t1] != idx[t2] by {
            if t1 < c.len() && t2 < c.len() {
                assert(self.live(c[t1]) && self.live(c[t2]));
                if c[t1].index == c[t2].index {
                    assert(c[t1].version == self.nodes.version_of(c[t1].index as int));
                    assert(c[t2].version == self.nodes.version_of(c[t2].index as int));
                    assert(c[t1] == c[t2]);
                    assert(self.node_at(c[t1]).spec_depth() == self.node_at(k).spec_depth() - t1);
                    assert(self.node_at(c[t2]).spec_depth() == self.node_at(k).spec_depth() - t2);
                }
            } else if t1 < c.len() {
                assert(idx[t2] == spare);
                assert(self.live(c[t1]));
                if c[t1].index == spare {
                    assert(self.nodes.value_of(spare as int) is Some);
                }
            } else if t2 < c.len() {
                assert(idx[t1] == spare);
                assert(self.live(c[t2]));
                if c[t2].index == spare {
                    assert(self.nodes.value_of(spare as int) is Some);
                }
            }
        }
        assert(idx.no_duplicates());
        crate::sparse_map::lemma_index_set_le(idx, bound);
    }

    /// Schedules a node for relayout: clears its freshness bits and enters
    /// it into the pending set. Returns `true` if the node exists and was
    /// newly scheduled.
    pub fn schedule_relayout(&mut self, id: NodeId) -> (r: bool)
        requires
            old(self).wf(),
            old(self).trans_ok(),
        ensures
            final (self).wf(),
            final (self).trans_ok(),
            !old(self).live(id.0) ==> r == false && *final (self) == *old(self),
            old(self).live(id.0) ==> {
                &&& r == !old(self).sched().contains(
                    DepthNode { depth: old(self).node_at(id.0).spec_depth(), id },
                )
                &&& final (self).live(id.0)
                &&& final (self).sched().contains(
                    DepthNode { depth: old(self).node_at(id.0).spec_depth(), id },
                )
                &&& final (self).node_at(id.0).spec_state() == (crate::node::NodeState {
                    constrained: false,
                    built: false,
                    positioned: false,
                })
                &&& final (self).node_at(id.0).spec_local() == old(self).node_at(id.0).spec_local()
                &&& final (self).node_at(id.0).spec_world() == old(self).node_at(id.0).spec_world()
                &&& final (self).node_at(id.0).spec_size() == old(self).node_at(id.0).spec_size()
                &&& final (self).node_at(id.0).spec_children() == old(self).node_at(
                    id.0,
                ).spec_children()
                &&& final (self).node_at(id.0).spec_parent() == old(self).node_at(
                    id.0,
                ).spec_parent()
                &&& final (self).node_at(id.0).spec_depth() == old(self).node_at(
                    id.0,
                ).spec_depth()
                &&& forall|k2: Key|
                    #[trigger] final (self).live(k2) == old(self).live(k2) && (old(self).live(k2)
                        && k2 != id.0 ==> final (self).node_at(k2) == old(self).node_at(k2))
                &&& final (self).roots() == old(self).roots()
                &&& final (self).muts() == old(self).muts()
                &&& forall|e: DepthNode|
                    #[trigger] final (self).sched().contains(e) <==> old(self).sched().contains(e)
                        || e == (DepthNode { depth: old(self).node_at(id.0).spec_depth(), id })
            },
            final (self).slot_count() == old(self).slot_count(),
    {
        let depth = match self.nodes.get(&id.0) {
            Some(node) => node.depth(),
            None => {
                return false;
            },
        };
        let node_ref = self.nodes.get_mut(&id.0).unwrap();
        node_ref.set_state_value(crate::node::NodeState {
            constrained: false,
            built: false,
            positioned: false,
        });
        proof {
            assert forall|i: int|
                0 <= i < old(self).nodes.slot_count() implies (#[trigger] self.nodes.value_of(
                i,
            ) is Some <==> old(self).nodes.value_of(i) is Some) by {
                if i != id.0.index as int {
                    assert(self.nodes.version_of(i) == old(self).nodes.version_of(i));
                }
            }
            crate::sparse_map::lemma_wf_same_shape(old(self).nodes, self.nodes);
            assert forall|q: Key|
                old(self).live(q) && q != id.0 implies #[trigger] self.node_at(q) == old(
                self,
            ).node_at(q) by {
                if q.index != id.0.index {
                    assert(self.nodes.version_of(q.index as int) == old(self).nodes.version_of(
                        q.index as int,
                    ));
                } else {
                    assert(q.version == old(self).nodes.version_of(q.index as int));
                    assert(id.0.version == old(self).nodes.version_of(id.0.index as int));
                    assert(q == id.0);
                }
            }
            assert forall|q: Key| #[trigger] old(self).live(q) == self.live(q) by {
                if q.index < old(self).nodes.slot_count() && q.index != id.0.index {
                    assert(self.nodes.version_of(q.index as int) == old(self).nodes.version_of(
                        q.index as int,
                    ));
                }
            }
        }
        let r = self.scheduled_relayout.insert(DepthNode { depth, id });
        proof {
            lemma_frame_state_only(*old(self), *self, id.0);
        }
        r
    }
}

/// A state change that touches only one node's freshness bits keeps the
/// whole tree well-formed and translation-coherent.
#[verifier::rlimit(100)]
#[verifier::spinoff_prover]
proof fn lemma_frame_state_only(a: Rectree, b: Rectree, id: Key)
    requires
        a.wf(),
        b.arena_wf(),
        b.worklists_wf(),
        b.slot_count() == a.slot_count(),
        forall|q: Key| #[trigger] a.live(q) == b.live(q),
        forall|q: Key| a.live(q) && q != id ==> #[trigger] b.node_at(q) == a.node_at(q),
        a.live(id),
        b.node_at(id).spec_local() == a.node_at(id).spec_local(),
        b.node_at(id).spec_local_mutated() == a.node_at(id).spec_local_mutated(),
        b.node_at(id).spec_size() == a.node_at(id).spec_size(),
        b.node_at(id).spec_constraint() == a.node_at(id).spec_constraint(),
        b.node_at(id).spec_world() == a.node_at(id).spec_world(),
        b.node_at(id).spec_parent() == a.node_at(id).spec_parent(),
        b.node_at(id).spec_children() == a.node_at(id).spec_children(),
        b.node_at(id).spec_depth() == a.node_at(id).spec_depth(),
        b.roots() == a.roots(),
        b.muts() == a.muts(),
    ensures
        b.wf(),
        a.trans_ok() ==> b.trans_ok(),
{
    assert forall|q: Key| #[trigger] b.live(q) implies match b.node_at(q).spec_parent() {
        Some(p) => b.live(p.0) && b.node_at(p.0).spec_depth() + 1 == b.node_at(q).spec_depth(),
        None => b.node_at(q).spec_depth() == 0,
    } by {
        assert(a.live(q));
        assert(b.node_at(q).spec_parent() == a.node_at(q).spec_parent());
        assert(b.node_at(q).spec_depth() == a.node_at(q).spec_depth());
        match a.node_at(q).spec_parent() {
            Some(p) => {
                assert(b.node_at(p.0).spec_depth() == a.node_at(p.0).spec_depth());
            },
            None => {},
        }
    }
    assert forall|q: Key, c: Key|
        #![trigger b.node_at(q).spec_children().contains(NodeId(c).pair())]
        #![trigger b.live(q), b.node_at(c).spec_parent()]
        b.live(q) implies (b.node_at(q).spec_children().contains(NodeId(c).pair()) <==> b.live(c)
        && b.node_at(c).spec_parent() == Some(NodeId(q))) by {
        assert(b.node_at(q).spec_children() == a.node_at(q).spec_children());
        if b.live(c) {
            assert(b.node_at(c).spec_parent() == a.node_at(c).spec_parent());
        }
    }
    assert forall|q: Key| #[trigger] b.live(q) implies b.node_at(q).spec_children().finite()
        && b.node_at(q).spec_depth() < b.slot_count() && b.node_at(q).spec_depth()
        < 0x4000_0000 by {
        assert(a.live(q));
        if q != id {
            assert(b.node_at(q) == a.node_at(q));
        }
    }
    assert forall|q: Key| #[trigger] b.live(q) implies b.node_at(q).local_in_range() && -(
    b.node_at(q).spec_depth() + 1) * coord_limit() <= b.node_at(q).spec_world().x <= (b.node_at(
        q,
    ).spec_depth() + 1) * coord_limit() && -(b.node_at(q).spec_depth() + 1) * coord_limit()
        <= b.node_at(q).spec_world().y <= (b.node_at(q).spec_depth() + 1) * coord_limit() by {
        assert(a.live(q));
        if q != id {
            assert(b.node_at(q) == a.node_at(q));
        }
    }
    assert forall|q: Key|
        b.roots().contains(#[trigger] NodeId(q).pair()) implies b.live(q) && b.node_at(
        q,
    ).spec_parent() is None by {
        assert(a.roots().contains(NodeId(q).pair()));
    }
    assert forall|q: Key|
        b.live(q) && b.node_at(q).spec_parent() is None implies b.roots().contains(
        #[trigger] NodeId(q).pair()) by {
        assert(a.live(q) && a.node_at(q).spec_parent() is None);
    }
    assert(b.wf());
    if a.trans_ok() {
        assert forall|q: Key| #[trigger] b.live(q) && !b.law(q) implies exists|e: DepthNode|
            #[trigger] b.muts().contains(e) && b.live(e.id.0) && b.in_subtree(e.id.0, q)
            && b.node_at(e.id.0).spec_local_mutated() by {
            assert(a.live(q));
            lemma_law_same(a, b, q);
            assert(!a.law(q));
            let e = choose|e: DepthNode|
                #[trigger] a.muts().contains(e) && a.live(e.id.0) && a.in_subtree(e.id.0, q)
                    && a.node_at(e.id.0).spec_local_mutated();
            lemma_subtree_same(a, b, e.id.0, q);
            assert(b.node_at(e.id.0).spec_local_mutated());
            assert(b.muts().contains(e) && b.live(e.id.0) && b.in_subtree(e.id.0, q)
                && b.node_at(e.id.0).spec_local_mutated());
        }
    }
}

/// The world-sum law transfers between states that agree on the node, its
/// parent link, and the parent's world translation.
proof fn lemma_law_same(a: Rectree, b: Rectree, k: Key)
    requires
        a.live(k),
        b.live(k),
        b.node_at(k).spec_local() == a.node_at(k).spec_local(),
        b.node_at(k).spec_world() == a.node_at(k).spec_world(),
        b.node_at(k).spec_parent() == a.node_at(k).spec_parent(),
        match a.node_at(k).spec_parent() {
            Some(p) => b.node_at(p.0).spec_world() == a.node_at(p.0).spec_world(),
            None => true,
        },
    ensures
        b.law(k) == a.law(k),
{
}

/// Subtree membership transfers to any state that keeps the old nodes
/// alive with their parents and depths, as long as parent links stay
/// within the old live set.
proof fn lemma_subtree_same(a: Rectree, b: Rectree, root: Key, k: Key)
    requires
        forall|q: Key|
            #[trigger] a.live(q) ==> b.live(q) && b.node_at(q).spec_parent() == a.node_at(
                q,
            ).spec_parent() && b.node_at(q).spec_depth() == a.node_at(q).spec_depth(),
        forall|q: Key|
            #[trigger] a.live(q) ==> match a.node_at(q).spec_parent() {
                Some(p) => a.live(p.0),
                None => true,
            },
        a.live(k),
    ensures
        b.in_subtree(root, k) == a.in_subtree(root, k),
{
    lemma_subtree_fuel_same(a, b, root, k, a.node_at(k).spec_depth() as nat);
}

proof fn lemma_subtree_fuel_same(a: Rectree, b: Rectree, root: Key, k: Key, fuel: nat)
    requires
        forall|q: Key|
            #[trigger] a.live(q) ==> b.live(q) && b.node_at(q).spec_parent() == a.node_at(
                q,
            ).spec_parent() && b.node_at(q).spec_depth() == a.node_at(q).spec_depth(),
        forall|q: Key|
            #[trigger] a.live(q) ==> match a.node_at(q).spec_parent() {
                Some(p) => a.live(p.0),
                None => true,
            },
        a.live(k),
    ensures
        b.in_subtree_fuel(root, k, fuel) == a.in_subtree_fuel(root, k, fuel),
    decreases fuel,
{
    if fuel > 0 {
        match a.node_at(k).spec_parent() {
            Some(p) => {
                assert(a.live(p.0));
                lemma_subtree_fuel_same(a, b, root, p.0, (fuel - 1) as nat);
            },
            None => {},
        }
    }
}


impl Rectree {
    /// Inserts a node, linking it under its declared parent (which must be
    /// live) or into the root set, at depth parent-depth + 1 (or 0). The
    /// new node starts with a zero world translation, all freshness bits
    /// lowered, no children, and is entered into both pending worklists.
    #[verifier::rlimit(80)]
    pub fn insert_node(&mut self, node: RectNode) -> (r: NodeId)
        requires
            old(self).wf(),
            old(self).trans_ok(),
            node.spec_parent() is Some ==> old(self).live(node.spec_parent()->Some_0.0),
            node.local_in_range(),
            old(self).slot_count() < 0x4000_0000,
        ensures
            final (self).wf(),
            final (self).trans_ok(),
            !old(self).live(r.0),
            final (self).live(r.0),
            final (self).node_at(r.0).spec_local() == node.spec_local(),
            final (self).node_at(r.0).spec_size() == node.spec_size(),
            final (self).node_at(r.0).spec_parent() == node.spec_parent(),
            final (self).node_at(r.0).spec_world() == (Vec2 { x: 0, y: 0 }),
            final (self).node_at(r.0).spec_children() =~= Set::<(usize, u32)>::empty(),
            final (self).node_at(r.0).spec_state() == (crate::node::NodeState {
                constrained: false,
                built: false,
                positioned: false,
            }),
            final (self).node_at(r.0).spec_depth() as int == match node.spec_parent() {
                Some(p) => old(self).node_at(p.0).spec_depth() + 1,
                None => 0int,
            },
            match node.spec_parent() {
                Some(p) => final (self).node_at(p.0).spec_children() == old(self).node_at(
                    p.0,
                ).spec_children().insert(r.pair()) && final (self).roots() == old(self).roots(),
                None => final (self).roots() == old(self).roots().insert(r.pair()),
            },
            forall|k2: Key| old(self).live(k2) ==> #[trigger] final (self).live(k2),
            forall|k2: Key| #[trigger] final (self).live(k2) ==> old(self).live(k2) || k2 == r.0,
            forall|k2: Key|
                old(self).live(k2) && Some(NodeId(k2)) != node.spec_parent()
                    ==> #[trigger] final (self).node_at(k2) == old(self).node_at(k2),
            forall|k2: Key|
                old(self).live(k2) ==> crate::node::same_but_children(
                    #[trigger] final (self).node_at(k2),
                    old(self).node_at(k2),
                ),
            final (self).sched().contains(
                DepthNode { depth: final (self).node_at(r.0).spec_depth(), id: r },
            ),
            forall|e: DepthNode|
                old(self).sched().contains(e) ==> #[trigger] final (self).sched().contains(e),
            forall|e: DepthNode|
                old(self).muts().contains(e) ==> #[trigger] final (self).muts().contains(e),
            final (self).slot_count() <= old(self).slot_count() + 1,
    {
        let mut node = node;
        let depth: u32 = match node.parent() {
            Some(p) => {
                let parent_node = self.nodes.get(&p.0).unwrap();
                let pd = parent_node.depth();
                proof {
                    if old(self).nodes.free_list().len() > 0 {
                        let spare = old(self).nodes.free_list().last();
                        old(self).lemma_depth_bound(p.0, spare);
                    } else {
                        crate::sparse_map::lemma_slot_count_bound(&self.nodes);
                        old(self).lemma_depth_bound(p.0, old(self).slot_count() as usize);
                    }
                }
                pd + 1
            },
            None => 0,
        };
        node.set_world_value(Vec2 { x: 0, y: 0 });
        node.set_state_value(crate::node::NodeState {
            constrained: false,
            built: false,
            positioned: false,
        });
        node.clear_children();
        node.set_depth_value(depth);
        node.mark_local_mutated();
        let ghost prepared = node;
        let key = self.nodes.insert(node);
        let id = NodeId(key);
        let ghost s1 = *self;
        proof {
            assert(!old(self).live(key));
            assert(s1.node_at(key) == prepared);
            if old(self).nodes.free_list().len() > 0 {
                assert(key.index == old(self).nodes.free_list().last());
                assert(old(self).nodes.free_list()[old(self).nodes.free_list().len() - 1]
                    == key.index);
                assert(old(self).nodes.value_of(key.index as int) is None);
            } else {
                assert(key.index as int == old(self).slot_count());
            }
            assert forall|q: Key| old(self).live(q) implies #[trigger] s1.live(q) by {
                assert(q.index != key.index);
            }
            assert forall|q: Key| old(self).live(q) implies #[trigger] s1.node_at(q) == old(
                self,
            ).node_at(q) by {
                assert(q.index != key.index);
                assert(s1.live(q));
            }
            assert forall|q: Key| #[trigger] s1.live(q) implies old(self).live(q) || q == key by {
                if q.index == key.index && q.version != key.version {
                    assert(!s1.live(q));
                }
            }
            assert(s1.slot_count() <= old(self).slot_count() + 1);
            assert(prepared.spec_depth() < s1.slot_count());
        }
        let parent_opt = {
            let fresh = self.nodes.get(&key).unwrap();
            fresh.parent()
        };
        match parent_opt {
            Some(p) => {
                let parent_node = self.nodes.get_mut(&p.0).unwrap();
                parent_node.add_child(id);
            },
            None => {
                self.root_ids.insert(id);
            },
        }
        let ghost s2 = *self;
        proof {
            assert forall|q: Key| #[trigger] s1.live(q) == s2.live(q) by {
                match prepared.spec_parent() {
                    Some(p) => {
                        if q.index < s1.nodes.slot_count() && q.index != p.0.index {
                            assert(s2.nodes.version_of(q.index as int) == s1.nodes.version_of(
                                q.index as int,
                            ));
                        }
                    },
                    None => {},
                }
            }
            assert forall|q: Key|
                s1.live(q) && Some(NodeId(q)) != prepared.spec_parent()
                    implies #[trigger] s2.node_at(q) == s1.node_at(q) by {
                match prepared.spec_parent() {
                    Some(p) => {
                        if q.index != p.0.index {
                            assert(s2.nodes.version_of(q.index as int) == s1.nodes.version_of(
                                q.index as int,
                            ));
                        } else if q != p.0 {
                            assert(q.version == s1.nodes.version_of(q.index as int));
                            assert(p.0.version == s1.nodes.version_of(p.0.index as int));
                        }
                    },
                    None => {},
                }
            }
            if prepared.spec_parent() is Some {
                let p = prepared.spec_parent()->Some_0;
                assert forall|i: int|
                    0 <= i < s1.nodes.slot_count() implies (#[trigger] s2.nodes.value_of(
                    i,
                ) is Some <==> s1.nodes.value_of(i) is Some) by {
                    if i != p.0.index as int {
                        assert(s2.nodes.version_of(i) == s1.nodes.version_of(i));
                    }
                }
                crate::sparse_map::lemma_wf_same_shape(s1.nodes, s2.nodes);
            }
        }
        self.scheduled_relayout.insert(DepthNode { depth, id });
        self.mutated_translations.insert(DepthNode { depth, id });
        proof {
            let b = *self;
            let a = *old(self);
            assert(b.nodes == s2.nodes);
            assert(b.roots() == s2.roots());
            // Liveness and per-node values carried to the final state.
            assert forall|q: Key| a.live(q) implies #[trigger] b.live(q) && (Some(NodeId(q))
                != prepared.spec_parent() ==> b.node_at(q) == a.node_at(q))
                && crate::node::same_but_children(b.node_at(q), a.node_at(q)) by {
                assert(s1.live(q) && s1.node_at(q) == a.node_at(q));
                if Some(NodeId(q)) == prepared.spec_parent() {
                    assert(crate::node::same_but_children(s2.node_at(q), s1.node_at(q)));
                }
            }
            assert forall|q: Key| #[trigger] b.live(q) implies a.live(q) || q == key by {}
            assert(b.live(key) && b.node_at(key) == prepared) by {
                assert(Some(NodeId(key)) != prepared.spec_parent()) by {
                    match prepared.spec_parent() {
                        Some(p) => {
                            assert(a.live(p.0));
                            assert(!a.live(key));
                        },
                        None => {},
                    }
                }
                assert(s2.node_at(key) == s1.node_at(key));
            }
            // Well-formedness clause by clause.
            assert forall|q: Key|
                b.roots().contains(#[trigger] NodeId(q).pair()) <==> b.live(q) && b.node_at(
                    q,
                ).spec_parent() is None by {
                if q == key {
                    assert(b.node_at(key).spec_parent() == prepared.spec_parent());
                    match prepared.spec_parent() {
                        Some(p) => {
                            assert(b.roots() == a.roots());
                            assert(!a.live(key));
                            assert(!a.roots().contains(NodeId(key).pair()));
                        },
                        None => {
                            assert(b.roots().contains(NodeId(key).pair()));
                        },
                    }
                } else {
                    assert(b.roots().contains(NodeId(q).pair()) == a.roots().contains(
                        NodeId(q).pair(),
                    )) by {
                        if NodeId(q).pair() == id.pair() {
                            assert(q == key);
                        }
                    }
                    if a.roots().contains(NodeId(q).pair()) {
                        assert(a.live(q) && a.node_at(q).spec_parent() is None);
                        assert(b.live(q));
                        assert(crate::node::same_but_children(b.node_at(q), a.node_at(q)));
                        assert(b.node_at(q).spec_parent() is None);
                    }
                    if b.live(q) && b.node_at(q).spec_parent() is None {
                        assert(a.live(q));
                        assert(crate::node::same_but_children(b.node_at(q), a.node_at(q)));
                        assert(a.node_at(q).spec_parent() is None);
                        assert(a.roots().contains(NodeId(q).pair()));
                    }
                }
            }
            assert forall|q: Key| #[trigger] b.live(q) implies match b.node_at(q).spec_parent() {
                Some(p2) => b.live(p2.0) && b.node_at(p2.0).spec_depth() + 1 == b.node_at(
                    q,
                ).spec_depth(),
                None => b.node_at(q).spec_depth() == 0,
            } by {
                if q == key {
                    match prepared.spec_parent() {
                        Some(p) => {
                            assert(a.live(p.0));
                            assert(b.live(p.0));
                            assert(crate::node::same_but_children(b.node_at(p.0), a.node_at(p.0)));
                        },
                        None => {},
                    }
                } else {
                    assert(a.live(q));
                    match a.node_at(q).spec_parent() {
                        Some(p2) => {
                            assert(a.live(p2.0));
                            assert(crate::node::same_but_children(
                                b.node_at(p2.0),
                                a.node_at(p2.0),
                            ));
                            assert(crate::node::same_but_children(b.node_at(q), a.node_at(q)));
                        },
                        None => {
                            assert(crate::node::same_but_children(b.node_at(q), a.node_at(q)));
                        },
                    }
                }
            }
            assert forall|q: Key, c: Key|
                #![trigger b.node_at(q).spec_children().contains(NodeId(c).pair())]
                #![trigger b.live(q), b.node_at(c).spec_parent()]
                b.live(q) implies (b.node_at(q).spec_children().contains(NodeId(c).pair())
                <==> b.live(c) && b.node_at(c).spec_parent() == Some(NodeId(q))) by {
                let is_parent = Some(NodeId(q)) == prepared.spec_parent();
                if q == key {
                    if b.live(c) && b.node_at(c).spec_parent() == Some(id) {
                        assert(c != key);
                        assert(a.live(c));
                        assert(a.node_at(c).spec_parent() == Some(id));
                        match a.node_at(c).spec_parent() {
                            Some(pp) => {
                                assert(a.live(pp.0));
                                assert(!a.live(key));
                            },
                            None => {},
                        }
                    }
                } else if is_parent {
                    let p = prepared.spec_parent()->Some_0;
                    assert(q == p.0);
                    assert(b.node_at(q).spec_children() == a.node_at(q).spec_children().insert(
                        id.pair(),
                    ));
                    if NodeId(c).pair() == id.pair() {
                        assert(c == key);
                        assert(b.node_at(key).spec_parent() == Some(p));
                        assert(NodeId(p.0) == p);
                    } else {
                        if b.live(c) && c != key {
                            assert(a.live(c));
                            assert(crate::node::same_but_children(b.node_at(c), a.node_at(c)));
                        }
                        if a.node_at(q).spec_children().contains(NodeId(c).pair()) {
                            assert(a.live(c) && a.node_at(c).spec_parent() == Some(NodeId(q)));
                        }
                    }
                } else {
                    assert(a.live(q));
                    assert(b.node_at(q).spec_children() == a.node_at(q).spec_children());
                    if NodeId(c).pair() == id.pair() {
                        assert(c == key);
                        assert(!a.node_at(q).spec_children().contains(NodeId(c).pair())) by {
                            if a.node_at(q).spec_children().contains(NodeId(c).pair()) {
                                assert(a.live(c));
                            }
                        }
                        assert(b.node_at(key).spec_parent() == prepared.spec_parent());
                        assert(b.node_at(c).spec_parent() != Some(NodeId(q))) by {
                            if prepared.spec_parent() == Some(NodeId(q)) {
                                assert(is_parent);
                            }
                        }
                    } else {
                        if b.live(c) && c != key {
                            assert(a.live(c));
                            assert(crate::node::same_but_children(b.node_at(c), a.node_at(c)));
                        }
                        if a.node_at(q).spec_children().contains(NodeId(c).pair()) {
                            assert(a.live(c) && a.node_at(c).spec_parent() == Some(NodeId(q)));
                        }
                    }
                }
            }
            assert forall|q: Key| #[trigger] b.live(q) implies b.node_at(
                q,
            ).spec_children().finite() && b.node_at(q).spec_depth() < b.slot_count()
                && b.node_at(q).local_in_range() && -(b.node_at(q).spec_depth() + 1)
                * coord_limit() <= b.node_at(q).spec_world().x <= (b.node_at(q).spec_depth() + 1)
                * coord_limit() && -(b.node_at(q).spec_depth() + 1) * coord_limit() <= b.node_at(
                q,
            ).spec_world().y <= (b.node_at(q).spec_depth() + 1) * coord_limit() by {
                if q == key {
                    assert(b.node_at(key) == prepared);
                    assert(prepared.spec_depth() < s1.slot_count());
                } else {
                    assert(a.live(q));
                    assert(crate::node::same_but_children(b.node_at(q), a.node_at(q)));
                    if Some(NodeId(q)) == prepared.spec_parent() {
                        assert(b.node_at(q).spec_children() == a.node_at(
                            q,
                        ).spec_children().insert(id.pair()));
                    } else {
                        assert(b.node_at(q) == a.node_at(q));
                    }
                }
            }
            assert(b.wf());
            // Translation coherence: the new node covers itself; old breaks
            // keep their old covers.
            assert forall|q: Key| #[trigger] b.live(q) && !b.law(q) implies exists|e: DepthNode|
                #[trigger] b.muts().contains(e) && b.live(e.id.0) && b.in_subtree(e.id.0, q)
                && b.node_at(e.id.0).spec_local_mutated() by {
                let self_entry = DepthNode { depth, id };
                if q == key {
                    assert(b.muts().contains(self_entry));
                    assert(b.in_subtree_fuel(key, key, b.node_at(key).spec_depth() as nat));
                    assert(b.node_at(key).spec_local_mutated());
                } else {
                    assert(a.live(q));
                    lemma_law_same(a, b, q);
                    let e = choose|e: DepthNode|
                        #[trigger] a.muts().contains(e) && a.live(e.id.0) && a.in_subtree(
                            e.id.0,
                            q,
                        ) && a.node_at(e.id.0).spec_local_mutated();
                    lemma_subtree_same(a, b, e.id.0, q);
                    assert(b.muts().contains(e) && b.live(e.id.0) && b.in_subtree(e.id.0, q)
                        && b.node_at(e.id.0).spec_local_mutated());
                }
            }
        }
        id
    }
}


/// Subtree membership in a shrunken state implies membership in the
/// original: surviving chains were already there.
proof fn lemma_subtree_shrink(a: Rectree, b: Rectree, root: Key, k: Key, fuel: nat)
    requires
        forall|q: Key|
            #[trigger] b.live(q) ==> a.live(q) && a.node_at(q).spec_parent() == b.node_at(
                q,
            ).spec_parent(),
        b.live(k),
    ensures
        b.in_subtree_fuel(root, k, fuel) ==> a.in_subtree_fuel(root, k, fuel),
    decreases fuel,
{
    if fuel > 0 {
        match b.node_at(k).spec_parent() {
            Some(p) => {
                if b.live(p.0) {
                    lemma_subtree_shrink(a, b, root, p.0, (fuel - 1) as nat);
                }
            },
            None => {},
        }
    }
}

impl Rectree {
    /// Unlinks and removes one childless node. Keeps the whole tree
    /// well-formed, and no other node changes except the parent (which
    /// loses the child entry) or the root set.
    #[verifier::rlimit(100)]
    #[verifier::spinoff_prover]
    fn remove_leaf(&mut self, id: NodeId)
        requires
            old(self).wf(),
            old(self).trans_ok(),
            old(self).live(id.0),
            old(self).node_at(id.0).spec_children() =~= Set::<(usize, u32)>::empty(),
        ensures
            final (self).wf(),
            final (self).trans_ok(),
            !final (self).live(id.0),
            final (self).slot_count() == old(self).slot_count(),
            forall|q: Key| #[trigger] final (self).live(q) <==> old(self).live(q) && q != id.0,
            forall|q: Key|
                final (self).live(q) ==> crate::node::same_but_children(
                    #[trigger] final (self).node_at(q),
                    old(self).node_at(q),
                ) && final (self).node_at(q).spec_children() == (match old(self).node_at(
                    id.0,
                ).spec_parent() {
                    Some(p) if p.0 == q => old(self).node_at(q).spec_children().remove(id.pair()),
                    _ => old(self).node_at(q).spec_children(),
                }),
            final (self).roots() == (match old(self).node_at(id.0).spec_parent() {
                Some(_) => old(self).roots(),
                None => old(self).roots().remove(id.pair()),
            }),
            final (self).sched() == old(self).sched(),
            final (self).muts() == old(self).muts(),
            final (self).nodes.spec_len() == old(self).nodes.spec_len() - 1,
    {
        let parent = self.nodes.get(&id.0).unwrap().parent();
        match parent {
            Some(p) => {
                proof {
                    assert(p.0 != id.0) by {
                        assert(old(self).node_at(id.0).spec_parent() == Some(p));
                        assert(old(self).node_at(p.0).spec_depth() + 1 == old(self).node_at(
                            id.0,
                        ).spec_depth());
                    }
                }
                let parent_node = self.nodes.get_mut(&p.0).unwrap();
                parent_node.remove_child(&id);
            },
            None => {
                self.root_ids.remove(&id);
            },
        }
        let ghost s2 = *self;
        proof {
            match parent {
                Some(p) => {
                    assert forall|i: int|
                        0 <= i < old(self).nodes.slot_count() implies (
                    #[trigger] s2.nodes.value_of(i) is Some <==> old(self).nodes.value_of(
                        i,
                    ) is Some) by {
                        if i != p.0.index as int {
                            assert(s2.nodes.version_of(i) == old(self).nodes.version_of(i));
                        }
                    }
                    crate::sparse_map::lemma_wf_same_shape(old(self).nodes, s2.nodes);
                },
                None => {},
            }
            assert forall|q: Key| #[trigger] s2.live(q) == old(self).live(q) by {
                match parent {
                    Some(p) => {
                        if q.index < old(self).nodes.slot_count() && q.index != p.0.index {
                            assert(s2.nodes.version_of(q.index as int) == old(
                                self,
                            ).nodes.version_of(q.index as int));
                        }
                    },
                    None => {},
                }
            }
            assert forall|q: Key|
                old(self).live(q) && (parent is Some ==> q != parent->Some_0.0)
                    implies #[trigger] s2.node_at(q) == old(self).node_at(q) by {
                match parent {
                    Some(p) => {
                        if q.index != p.0.index {
                            assert(s2.nodes.version_of(q.index as int) == old(
                                self,
                            ).nodes.version_of(q.index as int));
                        } else if q != p.0 {
                            assert(q.version == old(self).nodes.version_of(q.index as int));
                            assert(p.0.version == old(self).nodes.version_of(p.0.index as int));
                        }
                    },
                    None => {},
                }
            }
        }
        let removed = self.nodes.remove(&id.0);
        proof {
            let a = *old(self);
            let b = *self;
            assert(s2.nodes.value_of(id.0.index as int) is Some);
            assert forall|q: Key| #[trigger] b.live(q) <==> a.live(q) && q != id.0 by {
                if q.index != id.0.index {
                    if q.index < s2.nodes.slot_count() {
                        assert(b.nodes.version_of(q.index as int) == s2.nodes.version_of(
                            q.index as int,
                        ));
                        assert(b.nodes.value_of(q.index as int) == s2.nodes.value_of(
                            q.index as int,
                        ));
                    }
                } else {
                    if q.version == id.0.version {
                        assert(q == id.0);
                        assert(!b.live(q));
                    } else {
                        assert(!s2.live(q));
                        assert(!b.live(q)) by {
                            assert(b.nodes.version_of(id.0.index as int) == s2.nodes.version_of(
                                id.0.index as int,
                            ));
                        }
                    }
                }
            }
            assert forall|q: Key| #[trigger] b.live(q) implies b.node_at(q) == s2.node_at(q) by {
                assert(q.index != id.0.index || q.version != id.0.version);
                if q.index != id.0.index {
                    assert(b.nodes.version_of(q.index as int) == s2.nodes.version_of(
                        q.index as int,
                    ));
                    assert(b.nodes.value_of(q.index as int) == s2.nodes.value_of(q.index as int));
                } else {
                    assert(!b.live(q));
                }
            }
            // Well-formedness of the result.
            assert forall|q: Key|
                b.roots().contains(#[trigger] NodeId(q).pair()) <==> b.live(q) && b.node_at(
                    q,
                ).spec_parent() is None by {
                match a.node_at(id.0).spec_parent() {
                    Some(p) => {
                        assert(b.roots() == a.roots());
                        if NodeId(q).pair() == id.pair() {
                            assert(q == id.0);
                            assert(!a.roots().contains(NodeId(q).pair()));
                        } else if a.roots().contains(NodeId(q).pair()) {
                            assert(a.live(q) && a.node_at(q).spec_parent() is None);
                            assert(q != id.0);
                            assert(b.live(q));
                            assert(crate::node::same_but_children(b.node_at(q), a.node_at(q)));
                        } else if b.live(q) && b.node_at(q).spec_parent() is None {
                            assert(crate::node::same_but_children(b.node_at(q), a.node_at(q)));
                            assert(a.roots().contains(NodeId(q).pair()));
                        }
                    },
                    None => {
                        assert(b.roots() == a.roots().remove(id.pair()));
                        if NodeId(q).pair() == id.pair() {
                            assert(q == id.0);
                            assert(!b.live(q));
                            assert(!b.roots().contains(NodeId(q).pair()));
                        } else {
                            if a.roots().contains(NodeId(q).pair()) {
                                assert(a.live(q) && a.node_at(q).spec_parent() is None);
                                assert(b.live(q));
                                assert(crate::node::same_but_children(b.node_at(q), a.node_at(q)));
                            } else if b.live(q) && b.node_at(q).spec_parent() is None {
                                assert(crate::node::same_but_children(b.node_at(q), a.node_at(q)));
                                assert(a.roots().contains(NodeId(q).pair()));
                            }
                        }
                    },
                }
            }
            assert forall|q: Key| #[trigger] b.live(q) implies match b.node_at(q).spec_parent() {
                Some(p2) => b.live(p2.0) && b.node_at(p2.0).spec_depth() + 1 == b.node_at(
                    q,
                ).spec_depth(),
                None => b.node_at(q).spec_depth() == 0,
            } by {
                assert(a.live(q));
                assert(crate::node::same_but_children(b.node_at(q), a.node_at(q)));
                match a.node_at(q).spec_parent() {
                    Some(p2) => {
                        assert(a.live(p2.0));
                        assert(p2.0 != id.0) by {
                            if p2.0 == id.0 {
                                assert(a.node_at(id.0).spec_children().contains(NodeId(q).pair()));
                            }
                        }
                        assert(b.live(p2.0));
                        assert(crate::node::same_but_children(b.node_at(p2.0), a.node_at(p2.0)));
                    },
                    None => {},
                }
            }
            assert forall|q: Key, c: Key|
                #![trigger b.node_at(q).spec_children().contains(NodeId(c).pair())]
                #![trigger b.live(q), b.node_at(c).spec_parent()]
                b.live(q) implies (b.node_at(q).spec_children().contains(NodeId(c).pair())
                <==> b.live(c) && b.node_at(c).spec_parent() == Some(NodeId(q))) by {
                assert(a.live(q));
                let is_par = match a.node_at(id.0).spec_parent() {
                    Some(p) => p.0 == q,
                    None => false,
                };
                if is_par {
                    assert(b.node_at(q).spec_children() == a.node_at(q).spec_children().remove(
                        id.pair(),
                    ));
                } else {
                    assert(b.node_at(q).spec_children() == a.node_at(q).spec_children());
                }
                if NodeId(c).pair() == id.pair() {
                    assert(c == id.0);
                    assert(!b.live(c));
                    if !is_par {
                        if a.node_at(q).spec_children().contains(NodeId(c).pair()) {
                            assert(a.node_at(id.0).spec_parent() == Some(NodeId(q)));
                        }
                    }
                } else {
                    if b.live(c) {
                        assert(a.live(c));
                        assert(crate::node::same_but_children(b.node_at(c), a.node_at(c)));
                    }
                    if a.node_at(q).spec_children().contains(NodeId(c).pair()) {
                        assert(a.live(c) && a.node_at(c).spec_parent() == Some(NodeId(q)));
                        assert(c != id.0);
                    }
                }
            }
            assert forall|q: Key| #[trigger] b.live(q) implies b.node_at(
                q,
            ).spec_children().finite() && b.node_at(q).spec_depth() < b.slot_count()
                && b.node_at(q).local_in_range() && -(b.node_at(q).spec_depth() + 1)
                * coord_limit() <= b.node_at(q).spec_world().x <= (b.node_at(q).spec_depth() + 1)
                * coord_limit() && -(b.node_at(q).spec_depth() + 1) * coord_limit() <= b.node_at(
                q,
            ).spec_world().y <= (b.node_at(q).spec_depth() + 1) * coord_limit() by {
                assert(a.live(q));
                assert(crate::node::same_but_children(b.node_at(q), a.node_at(q)));
                match a.node_at(id.0).spec_parent() {
                    Some(p) => {
                        if p.0 == q {
                            assert(b.node_at(q).spec_children() == a.node_at(
                                q,
                            ).spec_children().remove(id.pair()));
                        } else {
                            assert(b.node_at(q) == s2.node_at(q));
                            assert(s2.node_at(q) == a.node_at(q));
                        }
                    },
                    None => {
                        assert(b.node_at(q) == a.node_at(q));
                    },
                }
            }
            assert(b.wf());
            // Translation coherence: covers survive because ancestors of
            // survivors survive.
            assert forall|q: Key| #[trigger] b.live(q) && !b.law(q) implies exists|e: DepthNode|
                #[trigger] b.muts().contains(e) && b.live(e.id.0) && b.in_subtree(e.id.0, q)
                && b.node_at(e.id.0).spec_local_mutated() by {
                assert(a.live(q));
                assert(crate::node::same_but_children(b.node_at(q), a.node_at(q)));
                match a.node_at(q).spec_parent() {
                    Some(p) => {
                        assert(a.live(p.0));
                        assert(p.0 != id.0) by {
                            if p.0 == id.0 {
                                assert(a.node_at(id.0).spec_children().contains(NodeId(q).pair()));
                            }
                        }
                        assert(b.live(p.0));
                        assert(crate::node::same_but_children(b.node_at(p.0), a.node_at(p.0)));
                    },
                    None => {},
                }
                lemma_law_same(a, b, q);
                assert(!a.law(q));
                let e = choose|e: DepthNode|
                    #[trigger] a.muts().contains(e) && a.live(e.id.0) && a.in_subtree(e.id.0, q)
                        && a.node_at(e.id.0).spec_local_mutated();
                assert(e.id.0 != id.0) by {
                    if e.id.0 == id.0 {
                        lemma_subtree_of_leaf(a, id.0, q);
                    }
                }
                assert(b.live(e.id.0));
                assert(b.in_subtree(e.id.0, q) == a.in_subtree(e.id.0, q)) by {
                    lemma_subtree_transfer_chain(a, b, e.id.0, q);
                }
                assert(b.muts().contains(e));
                assert(b.node_at(e.id.0).spec_local_mutated());
            }
        }
    }
}

/// If `k` lies in `a`'s subtree of `root` and `k` is live in `b` (a state
/// missing only nodes whose chains are gone), and every live node of `b`
/// keeps its parent from `a` with all of `k`'s `a`-ancestors still live in
/// `b`, the membership transfers.
proof fn lemma_subtree_transfer_chain(a: Rectree, b: Rectree, root: Key, k: Key)
    requires
        b.live(k),
        forall|q: Key|
            #[trigger] b.live(q) ==> a.live(q) && b.node_at(q).spec_parent() == a.node_at(
                q,
            ).spec_parent() && b.node_at(q).spec_depth() == a.node_at(q).spec_depth(),
        forall|q: Key|
            #[trigger] a.live(q) ==> match a.node_at(q).spec_parent() {
                Some(p) => a.live(p.0),
                None => true,
            },
        forall|q: Key|
            #[trigger] b.live(q) ==> match b.node_at(q).spec_parent() {
                Some(p) => b.live(p.0),
                None => true,
            },
    ensures
        b.in_subtree(root, k) == a.in_subtree(root, k),
{
    lemma_subtree_transfer_chain_fuel(a, b, root, k, b.node_at(k).spec_depth() as nat);
}

proof fn lemma_subtree_transfer_chain_fuel(a: Rectree, b: Rectree, root: Key, k: Key, fuel: nat)
    requires
        b.live(k),
        forall|q: Key|
            #[trigger] b.live(q) ==> a.live(q) && b.node_at(q).spec_parent() == a.node_at(
                q,
            ).spec_parent() && b.node_at(q).spec_depth() == a.node_at(q).spec_depth(),
        forall|q: Key|
            #[trigger] a.live(q) ==> match a.node_at(q).spec_parent() {
                Some(p) => a.live(p.0),
                None => true,
            },
        forall|q: Key|
            #[trigger] b.live(q) ==> match b.node_at(q).spec_parent() {
                Some(p) => b.live(p.0),
                None => true,
            },
    ensures
        b.in_subtree_fuel(root, k, fuel) == a.in_subtree_fuel(root, k, fuel),
    decreases fuel,
{
    if fuel > 0 {
        match b.node_at(k).spec_parent() {
            Some(p) => {
                assert(b.live(p.0));
                lemma_subtree_transfer_chain_fuel(a, b, root, p.0, (fuel - 1) as nat);
            },
            None => {},
        }
    }
}

/// In a state whose live nodes all have live parents, a subtree root with
/// a live member is itself live.
proof fn lemma_subtree_live_chain(b: Rectree, root: Key, k: Key)
    requires
        b.live(k),
        forall|q: Key|
            #[trigger] b.live(q) ==> match b.node_at(q).spec_parent() {
                Some(p) => b.live(p.0),
                None => true,
            },
    ensures
        b.in_subtree(root, k) ==> b.live(root),
{
    lemma_subtree_live_chain_fuel(b, root, k, b.node_at(k).spec_depth() as nat);
}

proof fn lemma_subtree_live_chain_fuel(b: Rectree, root: Key, k: Key, fuel: nat)
    requires
        b.live(k),
        forall|q: Key|
            #[trigger] b.live(q) ==> match b.node_at(q).spec_parent() {
                Some(p) => b.live(p.0),
                None => true,
            },
    ensures
        b.in_subtree_fuel(root, k, fuel) ==> b.live(root),
    decreases fuel,
{
    if fuel > 0 && k != root {
        match b.node_at(k).spec_parent() {
            Some(p) => {
                if b.live(p.0) {
                    lemma_subtree_live_chain_fuel(b, root, p.0, (fuel - 1) as nat);
                }
            },
            None => {},
        }
    }
}

/// Subtree members sit at or below their root's depth.
proof fn lemma_subtree_mindepth(a: Rectree, root: Key, k: Key, fuel: nat)
    requires
        a.wf(),
        a.live(k),
        a.live(root),
    ensures
        a.in_subtree_fuel(root, k, fuel) ==> a.node_at(k).spec_depth() >= a.node_at(
            root,
        ).spec_depth(),
    decreases fuel,
{
    if fuel > 0 && k != root {
        match a.node_at(k).spec_parent() {
            Some(p) => {
                assert(a.live(p.0));
                lemma_subtree_mindepth(a, root, p.0, (fuel - 1) as nat);
            },
            None => {},
        }
    }
}

/// The subtree of a childless node is just the node itself.
proof fn lemma_subtree_of_leaf(a: Rectree, root: Key, k: Key)
    requires
        a.wf(),
        a.live(root),
        a.node_at(root).spec_children() =~= Set::<(usize, u32)>::empty(),
        a.live(k),
        a.in_subtree(root, k),
    ensures
        k == root,
{
    lemma_subtree_of_leaf_fuel(a, root, k, a.node_at(k).spec_depth() as nat);
}

proof fn lemma_subtree_of_leaf_fuel(a: Rectree, root: Key, k: Key, fuel: nat)
    requires
        a.wf(),
        a.live(root),
        a.node_at(root).spec_children() =~= Set::<(usize, u32)>::empty(),
        a.live(k),
    ensures
        a.in_subtree_fuel(root, k, fuel) ==> k == root,
    decreases fuel,
{
    if fuel > 0 && k != root && a.in_subtree_fuel(root, k, fuel) {
        match a.node_at(k).spec_parent() {
            Some(p) => {
                assert(a.live(p.0));
                lemma_subtree_of_leaf_fuel(a, root, p.0, (fuel - 1) as nat);
                if p.0 == root {
                    assert(p == NodeId(root)) by {
                        assert(NodeId(p.0) == p);
                    }
                    assert(a.node_at(root).spec_children().contains(NodeId(k).pair()));
                }
            },
            None => {},
        }
    }
}


impl Rectree {
    /// Removes a node and its whole subtree; every descendant is removed
    /// exactly once and every node outside the subtree is kept unchanged
    /// (the parent merely loses the child entry). Returns `false`, leaving
    /// the tree untouched, when the handle is stale.
    #[verifier::rlimit(100)]
    #[verifier::spinoff_prover]
    pub fn remove_node(&mut self, id: &NodeId) -> (r: bool)
        requires
            old(self).wf(),
            old(self).trans_ok(),
        ensures
            final (self).wf(),
            final (self).trans_ok(),
            r == old(self).live(id.0),
            !final (self).live(id.0),
            forall|k: Key|
                #[trigger] final (self).live(k) <==> old(self).live(k) && !old(self).in_subtree(
                    id.0,
                    k,
                ),
            forall|k: Key|
                final (self).live(k) ==> crate::node::same_but_children(
                    #[trigger] final (self).node_at(k),
                    old(self).node_at(k),
                ),
            old(self).live(id.0) && old(self).node_at(id.0).spec_parent() is Some ==> final (
            self).node_at(
                old(self).node_at(id.0).spec_parent()->Some_0.0,
            ).spec_children() == old(self).node_at(
                old(self).node_at(id.0).spec_parent()->Some_0.0,
            ).spec_children().remove(id.pair()),
            final (self).roots() == (if old(self).live(id.0) && old(self).node_at(
                id.0,
            ).spec_parent() is None {
                old(self).roots().remove(id.pair())
            } else {
                old(self).roots()
            }),
            final (self).sched() == old(self).sched(),
            final (self).muts() == old(self).muts(),
            final (self).slot_count() == old(self).slot_count(),
            !old(self).live(id.0) ==> *final (self) == *old(self),
    {
        if !self.nodes.contains(&id.0) {
            proof {
                assert forall|k: Key| #[trigger] self.live(k) implies !old(self).in_subtree(
                    id.0,
                    k,
                ) by {
                    lemma_subtree_live_chain(*old(self), id.0, k);
                }
            }
            return false;
        }
        let ghost a = *old(self);
        let ghost origparent = a.node_at(id.0).spec_parent();
        proof {
            crate::sparse_map::lemma_len_nonneg(&self.nodes);
        }
        while self.nodes.contains(&id.0)
            invariant
                self.wf(),
                self.trans_ok(),
                a.wf(),
                a.live(id.0),
                origparent == a.node_at(id.0).spec_parent(),
                forall|k: Key| #[trigger] self.live(k) ==> a.live(k),
                forall|k: Key|
                    a.live(k) && !a.in_subtree(id.0, k) ==> #[trigger] self.live(k),
                forall|k: Key|
                    self.live(k) ==> crate::node::same_but_children(
                        #[trigger] self.node_at(k),
                        a.node_at(k),
                    ),
                forall|k: Key|
                    self.live(k) && !a.in_subtree(id.0, k) && (origparent is Some ==> k
                        != origparent->Some_0.0) ==> #[trigger] self.node_at(k).spec_children()
                        == a.node_at(k).spec_children(),
                origparent is Some ==> self.node_at(origparent->Some_0.0).spec_children() == (
                if self.live(id.0) {
                    a.node_at(origparent->Some_0.0).spec_children()
                } else {
                    a.node_at(origparent->Some_0.0).spec_children().remove(id.pair())
                }),
                forall|k: Key|
                    #[trigger] self.live(k) && a.in_subtree(id.0, k) ==> self.live(id.0)
                        && self.in_subtree(id.0, k),
                self.roots() == (if origparent is None && !self.live(id.0) {
                    a.roots().remove(id.pair())
                } else {
                    a.roots()
                }),
                self.sched() == a.sched(),
                self.muts() == a.muts(),
                self.slot_count() == a.slot_count(),
                self.nodes.spec_len() >= 0,
            decreases self.nodes.spec_len(),
        {
            let ghost pre = *self;
            // Walk down to a childless node of the doomed subtree.
            let mut cur: NodeId = *id;
            let mut kids = self.nodes.get(&cur.0).unwrap().child_ids();
            while kids.len() > 0
                invariant
                    self.wf(),
                    *self == pre,
                    self.live(cur.0),
                    self.in_subtree(id.0, cur.0),
                    kids@.len() > 0 ==> self.node_at(cur.0).spec_children().contains(
                        crate::node_set::pairs_of(kids@)[0],
                    ),
                    forall|p: (usize, u32)|
                        self.node_at(cur.0).spec_children().contains(p)
                            ==> #[trigger] crate::node_set::pairs_of(kids@).contains(p),
                decreases self.slot_count() - self.node_at(cur.0).spec_depth(),
            {
                let next = kids[0];
                proof {
                    assert(crate::node_set::pairs_of(kids@)[0] == next.pair());
                    assert(self.node_at(cur.0).spec_children().contains(NodeId(next.0).pair()));
                    assert(self.live(next.0));
                    assert(self.node_at(next.0).spec_parent() == Some(NodeId(cur.0)));
                    assert(NodeId(cur.0) == cur) by {
                        assert(NodeId(cur.0).pair() == cur.pair());
                    }
                    assert(self.in_subtree_fuel(
                        id.0,
                        next.0,
                        self.node_at(next.0).spec_depth() as nat,
                    ));
                }
                cur = next;
                kids = self.nodes.get(&cur.0).unwrap().child_ids();
            }
            proof {
                assert(self.node_at(cur.0).spec_children() =~= Set::<(usize, u32)>::empty()) by {
                    if exists|p: (usize, u32)| self.node_at(cur.0).spec_children().contains(p) {
                        let p = choose|p: (usize, u32)|
                            self.node_at(cur.0).spec_children().contains(p);
                        assert(crate::node_set::pairs_of(kids@).contains(p));
                    }
                }
                lemma_subtree_shrink(a, pre, id.0, cur.0, pre.node_at(cur.0).spec_depth() as nat);
                assert(a.in_subtree(id.0, cur.0)) by {
                    assert(pre.node_at(cur.0).spec_depth() == a.node_at(cur.0).spec_depth());
                }
            }
            let ghost doomed = cur;
            self.remove_leaf(cur);
            proof {
                let b = *self;
                // The removed node sat in the doomed subtree; everything
                // else keeps its membership relative to both states.
                assert forall|k: Key|
                    #[trigger] b.live(k) && a.in_subtree(id.0, k) implies b.live(id.0)
                    && b.in_subtree(id.0, k) by {
                    assert(pre.live(k));
                    assert(pre.in_subtree(id.0, k));
                    assert(b.in_subtree(id.0, k) == pre.in_subtree(id.0, k)) by {
                        lemma_subtree_transfer_chain(pre, b, id.0, k);
                    }
                    assert(b.live(id.0)) by {
                        if id.0 == doomed.0 {
                            lemma_subtree_live_chain(b, id.0, k);
                            assert(b.in_subtree(id.0, k));
                        } else {
                            assert(pre.live(id.0));
                        }
                    }
                }
                assert forall|k: Key|
                    a.live(k) && !a.in_subtree(id.0, k) implies #[trigger] b.live(k) by {
                    assert(pre.live(k));
                    if k == doomed.0 {
                        assert(a.in_subtree(id.0, doomed.0));
                    }
                }
                crate::sparse_map::lemma_len_nonneg(&b.nodes);
                if origparent is Some {
                    let op = origparent->Some_0;
                    if doomed.0 == id.0 {
                        assert(pre.node_at(id.0).spec_parent() == origparent);
                        assert(pre.node_at(op.0).spec_children() == a.node_at(
                            op.0,
                        ).spec_children());
                        assert(b.node_at(op.0).spec_children() == pre.node_at(
                            op.0,
                        ).spec_children().remove(id.pair()));
                    } else {
                        // The removed node's parent sits inside the doomed
                        // subtree, so it is not the original parent.
                        assert(pre.node_at(doomed.0).spec_parent() is Some);
                        let pp = pre.node_at(doomed.0).spec_parent()->Some_0;
                        assert(pre.live(pp.0));
                        assert(pre.in_subtree_fuel(
                            id.0,
                            pp.0,
                            pre.node_at(pp.0).spec_depth() as nat,
                        )) by {
                            assert(pre.in_subtree_fuel(
                                id.0,
                                doomed.0,
                                pre.node_at(doomed.0).spec_depth() as nat,
                            ));
                        }
                        assert(pp.0 != op.0) by {
                            if pp.0 == op.0 {
                                lemma_subtree_shrink(
                                    a,
                                    pre,
                                    id.0,
                                    pp.0,
                                    pre.node_at(pp.0).spec_depth() as nat,
                                );
                                assert(a.in_subtree(id.0, op.0));
                                lemma_subtree_mindepth(
                                    a,
                                    id.0,
                                    op.0,
                                    a.node_at(op.0).spec_depth() as nat,
                                );
                                assert(a.node_at(op.0).spec_depth() + 1 == a.node_at(
                                    id.0,
                                ).spec_depth());
                            }
                        }
                        assert(b.node_at(op.0).spec_children() == pre.node_at(
                            op.0,
                        ).spec_children());
                        assert(b.live(id.0)) by {
                            assert(pre.live(id.0));
                            assert(id.0 != doomed.0);
                        }
                    }
                }
            }
        }
        proof {
            assert forall|k: Key| #[trigger] self.live(k) implies !a.in_subtree(id.0, k) by {}
        }
        true
    }
}


/// Subtree membership is transitive.
proof fn lemma_subtree_trans(a: Rectree, x: Key, y: Key, k: Key, fuel: nat)
    requires
        a.in_subtree(x, y),
        a.live(y),
    ensures
        a.in_subtree_fuel(y, k, fuel) ==> a.in_subtree_fuel(x, k, fuel + a.node_at(
            y,
        ).spec_depth() as nat),
    decreases fuel,
{
    if a.in_subtree_fuel(y, k, fuel) {
        if k == y {
            lemma_subtree_fuel_mono(a, x, y, a.node_at(y).spec_depth() as nat, fuel + a.node_at(
                y,
            ).spec_depth() as nat);
        } else if fuel > 0 {
            match a.node_at(k).spec_parent() {
                Some(p) => {
                    if a.live(p.0) {
                        lemma_subtree_trans(a, x, y, p.0, (fuel - 1) as nat);
                    }
                },
                None => {},
            }
        }
    }
}

/// More fuel never loses membership.
proof fn lemma_subtree_fuel_mono(a: Rectree, x: Key, k: Key, f1: nat, f2: nat)
    requires
        a.in_subtree_fuel(x, k, f1),
        f1 <= f2,
    ensures
        a.in_subtree_fuel(x, k, f2),
    decreases f1,
{
    if k != x && f1 > 0 {
        match a.node_at(k).spec_parent() {
            Some(p) => {
                if a.live(p.0) {
                    lemma_subtree_fuel_mono(a, x, p.0, (f1 - 1) as nat, (f2 - 1) as nat);
                }
            },
            None => {},
        }
    }
}

/// Extra fuel beyond a node's depth adds nothing (under consistent
/// depths), so membership can be normalized to the depth-fueled form.
proof fn lemma_subtree_fuel_norm(a: Rectree, x: Key, k: Key, fuel: nat)
    requires
        a.wf(),
        a.live(k),
    ensures
        a.in_subtree_fuel(x, k, fuel) ==> a.in_subtree(x, k),
    decreases fuel,
{
    if a.in_subtree_fuel(x, k, fuel) && k != x && fuel > 0 {
        match a.node_at(k).spec_parent() {
            Some(p) => {
                assert(a.live(p.0));
                lemma_subtree_fuel_norm(a, x, p.0, (fuel - 1) as nat);
                if a.in_subtree(x, p.0) {
                    lemma_subtree_fuel_mono(
                        a,
                        x,
                        p.0,
                        a.node_at(p.0).spec_depth() as nat,
                        (a.node_at(k).spec_depth() - 1) as nat,
                    );
                }
            },
            None => {},
        }
    }
}

/// A subtree member other than the root lies in the subtree of one of the
/// root's children.
proof fn lemma_subtree_step(a: Rectree, root: Key, k: Key, fuel: nat) -> (c: Key)
    requires
        a.wf(),
        a.live(k),
        a.in_subtree_fuel(root, k, fuel),
        k != root,
    ensures
        a.live(c),
        a.node_at(c).spec_parent() == Some(NodeId(root)),
        a.in_subtree(c, k),
    decreases fuel,
{
    match a.node_at(k).spec_parent() {
        Some(p) => {
            assert(a.live(p.0));
            if p.0 == root {
                assert(NodeId(p.0) == p);
                assert(a.in_subtree(k, k));
                k
            } else {
                let c = lemma_subtree_step(a, root, p.0, (fuel - 1) as nat);
                assert(a.in_subtree_fuel(c, p.0, a.node_at(p.0).spec_depth() as nat));
                lemma_subtree_fuel_mono(
                    a,
                    c,
                    p.0,
                    a.node_at(p.0).spec_depth() as nat,
                    (a.node_at(k).spec_depth() - 1) as nat,
                );
                assert(a.in_subtree_fuel(c, k, a.node_at(k).spec_depth() as nat));
                c
            }
        },
        None => {
            assert(false);
            k
        },
    }
}

/// A state change that rewrites one node's world translation, lowers its
/// local-mutation flag and raises its positioned bit keeps the whole tree
/// well-formed, as long as the new world translation respects the depth
/// bound.
#[verifier::rlimit(100)]
#[verifier::spinoff_prover]
proof fn lemma_frame_world_flag(a: Rectree, b: Rectree, id: Key)
    requires
        a.wf(),
        b.arena_wf(),
        b.worklists_wf(),
        b.slot_count() == a.slot_count(),
        forall|q: Key| #[trigger] a.live(q) == b.live(q),
        forall|q: Key| a.live(q) && q != id ==> #[trigger] b.node_at(q) == a.node_at(q),
        a.live(id),
        b.node_at(id).local_in_range(),
        b.node_at(id).spec_parent() == a.node_at(id).spec_parent(),
        b.node_at(id).spec_children() == a.node_at(id).spec_children(),
        b.node_at(id).spec_depth() == a.node_at(id).spec_depth(),
        -(b.node_at(id).spec_depth() + 1) * coord_limit() <= b.node_at(id).spec_world().x <= (
        b.node_at(id).spec_depth() + 1) * coord_limit(),
        -(b.node_at(id).spec_depth() + 1) * coord_limit() <= b.node_at(id).spec_world().y <= (
        b.node_at(id).spec_depth() + 1) * coord_limit(),
        b.roots() == a.roots(),
    ensures
        b.wf(),
{
    assert forall|q: Key| #[trigger] b.live(q) implies match b.node_at(q).spec_parent() {
        Some(p) => b.live(p.0) && b.node_at(p.0).spec_depth() + 1 == b.node_at(q).spec_depth(),
        None => b.node_at(q).spec_depth() == 0,
    } by {
        assert(a.live(q));
        assert(b.node_at(q).spec_parent() == a.node_at(q).spec_parent());
        assert(b.node_at(q).spec_depth() == a.node_at(q).spec_depth());
        match a.node_at(q).spec_parent() {
            Some(p) => {
                assert(b.node_at(p.0).spec_depth() == a.node_at(p.0).spec_depth());
            },
            None => {},
        }
    }
    assert forall|q: Key, c: Key|
        #![trigger b.node_at(q).spec_children().contains(NodeId(c).pair())]
        #![trigger b.live(q), b.node_at(c).spec_parent()]
        b.live(q) implies (b.node_at(q).spec_children().contains(NodeId(c).pair()) <==> b.live(c)
        && b.node_at(c).spec_parent() == Some(NodeId(q))) by {
        assert(b.node_at(q).spec_children() == a.node_at(q).spec_children());
        if b.live(c) {
            assert(b.node_at(c).spec_parent() == a.node_at(c).spec_parent());
        }
    }
    assert forall|q: Key| #[trigger] b.live(q) implies b.node_at(q).spec_children().finite()
        && b.node_at(q).spec_depth() < b.slot_count() && b.node_at(q).spec_depth()
        < 0x4000_0000 by {
        assert(a.live(q));
        if q != id {
            assert(b.node_at(q) == a.node_at(q));
        }
    }
    assert forall|q: Key| #[trigger] b.live(q) implies b.node_at(q).local_in_range() && -(
    b.node_at(q).spec_depth() + 1) * coord_limit() <= b.node_at(q).spec_world().x <= (b.node_at(
        q,
    ).spec_depth() + 1) * coord_limit() && -(b.node_at(q).spec_depth() + 1) * coord_limit()
        <= b.node_at(q).spec_world().y <= (b.node_at(q).spec_depth() + 1) * coord_limit() by {
        assert(a.live(q));
        if q != id {
            assert(b.node_at(q) == a.node_at(q));
        }
    }
    assert forall|q: Key|
        b.roots().contains(#[trigger] NodeId(q).pair()) implies b.live(q) && b.node_at(
        q,
    ).spec_parent() is None by {
        assert(a.roots().contains(NodeId(q).pair()));
    }
    assert forall|q: Key|
        b.live(q) && b.node_at(q).spec_parent() is None implies b.roots().contains(
        #[trigger] NodeId(q).pair()) by {
        assert(a.live(q) && a.node_at(q).spec_parent() is None);
    }
}


/// Whether `k` lies in one of the first `i` child subtrees.
pub open spec fn covered_prefix(a: Rectree, kids: Seq<NodeId>, i: int, k: Key) -> bool {
    exists|t: int| 0 <= t < i && a.in_subtree(#[trigger] kids[t].0, k)
}

impl Rectree {
    /// Rewrites the world translations of a whole subtree from the given
    /// base (the parent's world translation): each visited node gets
    /// `world = local + base-for-its-walk`, its mutation flag lowered and
    /// its positioned bit raised. Nothing outside the subtree changes.
    #[verifier::rlimit(100)]
    #[verifier::spinoff_prover]
    fn propagate_translation(&mut self, id: NodeId, base: Vec2)
        requires
            old(self).wf(),
            old(self).live(id.0),
            match old(self).node_at(id.0).spec_parent() {
                Some(p) => base == old(self).node_at(p.0).spec_world(),
                None => base == (Vec2 { x: 0, y: 0 }),
            },
        ensures
            final (self).wf(),
            final (self).slot_count() == old(self).slot_count(),
            final (self).roots() == old(self).roots(),
            final (self).sched() == old(self).sched(),
            final (self).muts() == old(self).muts(),
            forall|k: Key| #[trigger] final (self).live(k) == old(self).live(k),
            forall|k: Key|
                old(self).live(k) && !old(self).in_subtree(id.0, k) ==> #[trigger] final (
                self).node_at(k) == old(self).node_at(k),
            forall|k: Key|
                old(self).live(k) && old(self).in_subtree(id.0, k) ==> #[trigger] final (
                self).law(k) && !final (self).node_at(k).spec_local_mutated() && final (
                self).node_at(k).spec_state().positioned,
            forall|k: Key|
                old(self).live(k) ==> #[trigger] final (self).node_at(k).spec_local() == old(
                    self,
                ).node_at(k).spec_local() && final (self).node_at(k).spec_size() == old(
                    self,
                ).node_at(k).spec_size() && final (self).node_at(k).spec_parent() == old(
                    self,
                ).node_at(k).spec_parent() && final (self).node_at(k).spec_children() == old(
                    self,
                ).node_at(k).spec_children() && final (self).node_at(k).spec_depth() == old(
                    self,
                ).node_at(k).spec_depth() && final (self).node_at(k).spec_constraint() == old(
                    self,
                ).node_at(k).spec_constraint() && final (self).node_at(k).spec_state().constrained
                    == old(self).node_at(k).spec_state().constrained && final (self).node_at(
                    k,
                ).spec_state().built == old(self).node_at(k).spec_state().built && (old(
                    self,
                ).node_at(k).spec_state().positioned ==> final (self).node_at(
                    k,
                ).spec_state().positioned),
        decreases (old(self).slot_count() - old(self).node_at(id.0).spec_depth()) as nat,
    {
        let ghost a = *old(self);
        self.walk_root_update(id, base);
        let ghost s1 = *self;
        let kids = self.nodes.get(&id.0).unwrap().child_ids();
        let n = kids.len();
        let mut i: usize = 0;
        #[verifier::loop_isolation(false)]
        while i < n
            invariant
                self.wf(),
                n == kids@.len(),
                0 <= i <= n,
                a.wf(),
                a.live(id.0),
                self.live(id.0),
                self.slot_count() == a.slot_count(),
                self.roots() == a.roots(),
                self.sched() == a.sched(),
                self.muts() == a.muts(),
                forall|k: Key| #[trigger] self.live(k) == a.live(k),
                self.node_at(id.0) == s1.node_at(id.0),
                s1.node_at(id.0).spec_world().x == base.x + a.node_at(id.0).spec_local().x,
                s1.node_at(id.0).spec_world().y == base.y + a.node_at(id.0).spec_local().y,
                self.law(id.0),
                !self.node_at(id.0).spec_local_mutated(),
                a.node_at(id.0).spec_children() == self.node_at(id.0).spec_children(),
                forall|t: int| 0 <= t < n ==> self.node_at(id.0).spec_children().contains(
                    #[trigger] crate::node_set::pairs_of(kids@)[t],
                ),
                forall|p: (usize, u32)|
                    self.node_at(id.0).spec_children().contains(p)
                        ==> #[trigger] crate::node_set::pairs_of(kids@).contains(p),
                forall|k: Key|
                    a.live(k) && !a.in_subtree(id.0, k) ==> #[trigger] self.node_at(k)
                        == a.node_at(k),
                forall|k: Key|
                    #[trigger] a.live(k) && covered_prefix(a, kids@, i as int, k)
                        ==> self.law(k) && !self.node_at(k).spec_local_mutated()
                        && self.node_at(k).spec_state().positioned,
                self.node_at(id.0).spec_state().positioned,
                forall|k: Key|
                    a.live(k) ==> #[trigger] self.node_at(k).spec_local() == a.node_at(
                        k,
                    ).spec_local() && self.node_at(k).spec_size() == a.node_at(k).spec_size()
                        && self.node_at(k).spec_parent() == a.node_at(k).spec_parent()
                        && self.node_at(k).spec_children() == a.node_at(k).spec_children()
                        && self.node_at(k).spec_depth() == a.node_at(k).spec_depth()
                        && self.node_at(k).spec_constraint() == a.node_at(k).spec_constraint()
                        && self.node_at(k).spec_state().constrained == a.node_at(
                        k,
                    ).spec_state().constrained && self.node_at(k).spec_state().built == a.node_at(
                        k,
                    ).spec_state().built && (a.node_at(k).spec_state().positioned
                        ==> self.node_at(k).spec_state().positioned),
            decreases n - i,
        {
            let c = kids[i];
            proof {
                assert(crate::node_set::pairs_of(kids@)[i as int] == c.pair());
                assert(self.node_at(id.0).spec_children().contains(NodeId(c.0).pair()));
                assert(self.live(c.0));
                assert(self.node_at(c.0).spec_parent() == Some(NodeId(id.0)));
                assert(NodeId(id.0) == id) by {
                    assert(NodeId(id.0).pair() == id.pair());
                }
            }
            let base2 = {
                let nref = self.nodes.get(&id.0).unwrap();
                nref.world_translation()
            };
            let ghost pre = *self;
            proof {
                assert(self.node_at(c.0).spec_depth() == a.node_at(id.0).spec_depth() + 1) by {
                    assert(self.node_at(c.0).spec_parent() == Some(id));
                    assert(self.live(id.0));
                    assert(self.node_at(id.0).spec_depth() == a.node_at(id.0).spec_depth());
                }
                assert(self.node_at(c.0).spec_depth() < self.slot_count());
                assert(((self.slot_count() - self.node_at(c.0).spec_depth()) as nat) < ((
                a.slot_count() - a.node_at(id.0).spec_depth()) as nat));
            }
            self.propagate_translation(c, base2);
            proof {
                let cur = *self;
                assert forall|k: Key|
                    #[trigger] a.live(k) && covered_prefix(a, kids@, i + 1, k) implies cur.law(k)
                    && !cur.node_at(k).spec_local_mutated() && cur.node_at(
                    k,
                ).spec_state().positioned by {
                    let t = choose|t: int| 0 <= t < i + 1 && a.in_subtree(#[trigger] kids@[t].0, k);
                    assert(pre.live(k));
                    if pre.in_subtree(c.0, k) {
                    } else {
                        assert(cur.node_at(k) == pre.node_at(k));
                        if t < i {
                            assert(covered_prefix(a, kids@, i as int, k)) by {
                                assert(0 <= t < i && a.in_subtree(kids@[t].0, k));
                            }
                            assert(pre.law(k) && !pre.node_at(k).spec_local_mutated()
                                && pre.node_at(k).spec_state().positioned);
                            assert(cur.law(k)) by {
                                match pre.node_at(k).spec_parent() {
                                    Some(pk) => {
                                        assert(pre.live(pk.0));
                                        assert(!pre.in_subtree(c.0, pk.0)) by {
                                            if pre.in_subtree(c.0, pk.0) {
                                                assert(pre.in_subtree_fuel(
                                                    c.0,
                                                    k,
                                                    pre.node_at(k).spec_depth() as nat,
                                                ));
                                            }
                                        }
                                        assert(cur.node_at(pk.0) == pre.node_at(pk.0));
                                        lemma_law_same(pre, cur, k);
                                    },
                                    None => {
                                        lemma_law_same(pre, cur, k);
                                    },
                                }
                            }
                        } else {
                            // t == i: the walk just covered this subtree.
                            assert(a.in_subtree(c.0, k));
                            assert(pre.in_subtree(c.0, k)) by {
                                lemma_subtree_same(a, pre, c.0, k);
                            }
                        }
                    }
                }
                assert forall|k: Key|
                    a.live(k) && !a.in_subtree(id.0, k) implies #[trigger] cur.node_at(k)
                        == a.node_at(k) by {
                    assert(!a.in_subtree(c.0, k)) by {
                        if a.in_subtree(c.0, k) {
                            lemma_subtree_trans(
                                a,
                                id.0,
                                c.0,
                                k,
                                a.node_at(k).spec_depth() as nat,
                            );
                            lemma_subtree_fuel_norm(
                                a,
                                id.0,
                                k,
                                a.node_at(k).spec_depth() as nat + a.node_at(
                                    c.0,
                                ).spec_depth() as nat,
                            );
                        }
                    }
                    assert(!pre.in_subtree(c.0, k)) by {
                        lemma_subtree_same(a, pre, c.0, k);
                    }
                    assert(cur.node_at(k) == pre.node_at(k));
                }
                assert(cur.node_at(id.0) == pre.node_at(id.0)) by {
                    assert(!pre.in_subtree(c.0, id.0)) by {
                        if pre.in_subtree(c.0, id.0) {
                            lemma_subtree_mindepth(
                                pre,
                                c.0,
                                id.0,
                                pre.node_at(id.0).spec_depth() as nat,
                            );
                        }
                    }
                }
            }
            i = i + 1;
        }
        proof {
            let b = *self;
            assert forall|k: Key|
                a.live(k) && a.in_subtree(id.0, k) implies #[trigger] b.law(k) && !b.node_at(
                k,
            ).spec_local_mutated() && b.node_at(k).spec_state().positioned by {
                if k == id.0 {
                } else {
                    let c = lemma_subtree_step(a, id.0, k, a.node_at(k).spec_depth() as nat);
                    assert(a.node_at(c).spec_children() == a.node_at(c).spec_children());
                    assert(a.node_at(id.0).spec_children().contains(NodeId(c).pair()));
                    assert(crate::node_set::pairs_of(kids@).contains(NodeId(c).pair()));
                    let t = choose|t: int|
                        0 <= t < kids@.len() && #[trigger] crate::node_set::pairs_of(kids@)[t]
                            == NodeId(c).pair();
                    assert(kids@[t].0 == c) by {
                        assert(crate::node_set::pairs_of(kids@)[t] == kids@[t].pair());
                    }
                    assert(a.in_subtree(kids@[t].0, k));
                    assert(covered_prefix(a, kids@, n as int, k));
                }
            }
        }
    }
}


/// Well-formedness does not depend on the worklists' contents, only on
/// their ordering.
#[verifier::rlimit(100)]
#[verifier::spinoff_prover]
proof fn lemma_wf_worklists(a: Rectree, b: Rectree)
    requires
        a.wf(),
        b.nodes == a.nodes,
        b.root_ids == a.root_ids,
        b.scheduled_relayout.wf(),
        b.mutated_translations.wf(),
    ensures
        b.wf(),
{
    assert(b.arena_wf());
    assert(b.worklists_wf());
    assert(b.roots() == a.roots());
    assert forall|k: Key| #[trigger] b.live(k) implies b.live(k) == a.live(k) && b.node_at(k)
        == a.node_at(k) by {}
    assert forall|q: Key|
        b.roots().contains(#[trigger] NodeId(q).pair()) <==> b.live(q) && b.node_at(
            q,
        ).spec_parent() is None by {
        assert(b.live(q) == a.live(q));
        assert(b.node_at(q) == a.node_at(q));
    }
    assert forall|q: Key| #[trigger] b.live(q) implies match b.node_at(q).spec_parent() {
        Some(p) => b.live(p.0) && b.node_at(p.0).spec_depth() + 1 == b.node_at(q).spec_depth(),
        None => b.node_at(q).spec_depth() == 0,
    } by {
        assert(a.live(q));
    }
    assert forall|q: Key, c: Key|
        #![trigger b.node_at(q).spec_children().contains(NodeId(c).pair())]
        #![trigger b.live(q), b.node_at(c).spec_parent()]
        b.live(q) implies (b.node_at(q).spec_children().contains(NodeId(c).pair()) <==> b.live(c)
        && b.node_at(c).spec_parent() == Some(NodeId(q))) by {
        assert(a.live(q));
        assert(b.live(c) == a.live(c));
    }
    assert forall|q: Key| #[trigger] b.live(q) implies b.node_at(q).spec_children().finite()
        && b.node_at(q).spec_depth() < b.slot_count() && b.node_at(q).spec_depth() < 0x4000_0000
        && b.node_at(q).local_in_range() && -(b.node_at(q).spec_depth() + 1) * coord_limit()
        <= b.node_at(q).spec_world().x <= (b.node_at(q).spec_depth() + 1) * coord_limit() && -(
    b.node_at(q).spec_depth() + 1) * coord_limit() <= b.node_at(q).spec_world().y <= (b.node_at(
        q,
    ).spec_depth() + 1) * coord_limit() by {
        assert(a.live(q));
    }
}

impl Rectree {
    /// Processes the pending translation set, shallowest entries first:
    /// every subtree rooted at a recorded (and still mutated) node has its
    /// world translations recomputed. Afterwards the set is empty and the
    /// world-sum law holds at every live node.
    #[verifier::rlimit(100)]
    #[verifier::spinoff_prover]
    pub fn update_translations(&mut self)
        requires
            old(self).wf(),
            old(self).trans_ok(),
        ensures
            final (self).wf(),
            final (self).trans_ok(),
            final (self).muts().len() == 0,
            final (self).sched() == old(self).sched(),
            final (self).roots() == old(self).roots(),
            forall|k: Key| #[trigger] final (self).live(k) == old(self).live(k),
            forall|k: Key|
                old(self).live(k) ==> #[trigger] final (self).node_at(k).spec_local() == old(
                    self,
                ).node_at(k).spec_local() && final (self).node_at(k).spec_size() == old(
                    self,
                ).node_at(k).spec_size() && final (self).node_at(k).spec_parent() == old(
                    self,
                ).node_at(k).spec_parent() && final (self).node_at(k).spec_children() == old(
                    self,
                ).node_at(k).spec_children() && final (self).node_at(k).spec_depth() == old(
                    self,
                ).node_at(k).spec_depth() && final (self).node_at(k).spec_constraint() == old(
                    self,
                ).node_at(k).spec_constraint() && final (self).node_at(k).spec_state().constrained
                    == old(self).node_at(k).spec_state().constrained && final (self).node_at(
                    k,
                ).spec_state().built == old(self).node_at(k).spec_state().built && (old(
                    self,
                ).node_at(k).spec_state().positioned ==> final (self).node_at(
                    k,
                ).spec_state().positioned),
            forall|k: Key| final (self).live(k) ==> #[trigger] final (self).law(k),
            final (self).slot_count() == old(self).slot_count(),
    {
        let mut entries = DepthSet::new();
        core::mem::swap(&mut entries, &mut self.mutated_translations);
        let ghost a = *old(self);
        let ghost eseq = entries.view();
        let n = entries.len();
        let mut i: usize = 0;
        proof {
            assert(self.nodes == a.nodes);
            assert(self.roots() == a.roots());
            assert(self.sched() == a.sched());
            assert(eseq == a.muts());
            lemma_wf_worklists(a, *self);
            assert(self.muts().len() == 0);
            assert forall|k: Key|
                #[trigger] self.live(k) && !self.law(k) implies exists|j: int|
                i <= j < eseq.len() && self.live(#[trigger] eseq[j].id.0) && self.in_subtree(
                    eseq[j].id.0,
                    k,
                ) && self.node_at(eseq[j].id.0).spec_local_mutated() by {
                let e = choose|e: DepthNode|
                    #[trigger] a.muts().contains(e) && a.live(e.id.0) && a.in_subtree(e.id.0, k)
                        && a.node_at(e.id.0).spec_local_mutated();
                assert(a.muts().contains(e));
                let j = choose|j: int| 0 <= j < eseq.len() && eseq[j] == e;
                assert(eseq[j] == e);
                assert(self.in_subtree(e.id.0, k) == a.in_subtree(e.id.0, k)) by {
                    lemma_subtree_same(a, *self, e.id.0, k);
                }
                assert(self.live(e.id.0) && self.in_subtree(e.id.0, k) && self.node_at(
                    e.id.0,
                ).spec_local_mutated());
                assert(self.live(eseq[j].id.0) && self.in_subtree(eseq[j].id.0, k)
                    && self.node_at(eseq[j].id.0).spec_local_mutated());
            }
        }
        #[verifier::loop_isolation(false)]
        while i < n
            invariant
                self.wf(),
                n == eseq.len(),
                0 <= i <= n,
                self.muts().len() == 0,
                self.sched() == a.sched(),
                self.roots() == a.roots(),
                self.slot_count() == a.slot_count(),
                forall|k: Key| #[trigger] self.live(k) == a.live(k),
                forall|k: Key|
                    a.live(k) ==> #[trigger] self.node_at(k).spec_local() == a.node_at(
                        k,
                    ).spec_local() && self.node_at(k).spec_size() == a.node_at(k).spec_size()
                        && self.node_at(k).spec_parent() == a.node_at(k).spec_parent()
                        && self.node_at(k).spec_children() == a.node_at(k).spec_children()
                        && self.node_at(k).spec_depth() == a.node_at(k).spec_depth()
                        && self.node_at(k).spec_constraint() == a.node_at(k).spec_constraint()
                        && self.node_at(k).spec_state().constrained == a.node_at(
                        k,
                    ).spec_state().constrained && self.node_at(k).spec_state().built == a.node_at(
                        k,
                    ).spec_state().built && (a.node_at(k).spec_state().positioned
                        ==> self.node_at(k).spec_state().positioned),
                forall|k: Key|
                    #[trigger] self.live(k) && !self.law(k) ==> exists|j: int|
                        i <= j < eseq.len() && self.live(#[trigger] eseq[j].id.0)
                            && self.in_subtree(eseq[j].id.0, k) && self.node_at(
                            eseq[j].id.0,
                        ).spec_local_mutated(),
            decreases n - i,
        {
            let e = entries.get_at(i);
            let ghost pre = *self;
            let mut walked = false;
            let ghost walked_root = e.id.0;
            if self.nodes.contains(&e.id.0) {
                let flagged = self.nodes.get(&e.id.0).unwrap().local_flag();
                if flagged {
                    let par = self.nodes.get(&e.id.0).unwrap().parent();
                    let base = match par {
                        Some(p) => {
                            proof {
                                assert(self.live(e.id.0));
                                assert(self.live(p.0));
                            }
                            self.nodes.get(&p.0).unwrap().world_translation()
                        },
                        None => Vec2 { x: 0, y: 0 },
                    };
                    self.propagate_translation(e.id, base);
                    walked = true;
                }
            }
            proof {
                let cur = *self;
                assert forall|k: Key|
                    #[trigger] cur.live(k) && !cur.law(k) implies exists|j: int|
                    i + 1 <= j < eseq.len() && cur.live(#[trigger] eseq[j].id.0)
                        && cur.in_subtree(eseq[j].id.0, k) && cur.node_at(
                        eseq[j].id.0,
                    ).spec_local_mutated() by {
                    assert(pre.live(k));
                    if walked && pre.in_subtree(walked_root, k) {
                        assert(cur.law(k));
                    } else {
                        if walked {
                            assert(cur.node_at(k) == pre.node_at(k));
                        }
                        assert(!pre.law(k)) by {
                            if pre.law(k) {
                                if walked {
                                    match pre.node_at(k).spec_parent() {
                                        Some(pk) => {
                                            assert(pre.live(pk.0));
                                            assert(!pre.in_subtree(walked_root, pk.0)) by {
                                                if pre.in_subtree(walked_root, pk.0) {
                                                    assert(pre.in_subtree_fuel(
                                                        walked_root,
                                                        k,
                                                        pre.node_at(k).spec_depth() as nat,
                                                    ));
                                                }
                                            }
                                            assert(cur.node_at(pk.0) == pre.node_at(pk.0));
                                            lemma_law_same(pre, cur, k);
                                        },
                                        None => {
                                            lemma_law_same(pre, cur, k);
                                        },
                                    }
                                }
                            }
                        }
                        let j = choose|j: int|
                            i <= j < eseq.len() && pre.live(#[trigger] eseq[j].id.0)
                                && pre.in_subtree(eseq[j].id.0, k) && pre.node_at(
                                eseq[j].id.0,
                            ).spec_local_mutated();
                        assert(j != i) by {
                            if j == i {
                                assert(pre.live(e.id.0));
                                assert(pre.node_at(e.id.0).spec_local_mutated());
                                assert(walked);
                                assert(pre.in_subtree(walked_root, k));
                            }
                        }
                        assert(cur.live(eseq[j].id.0));
                        assert(cur.in_subtree(eseq[j].id.0, k) == pre.in_subtree(
                            eseq[j].id.0,
                            k,
                        )) by {
                            lemma_subtree_same(pre, cur, eseq[j].id.0, k);
                        }
                        assert(cur.node_at(eseq[j].id.0).spec_local_mutated()) by {
                            if walked && pre.in_subtree(walked_root, eseq[j].id.0) {
                                // Then k would sit under the walked subtree
                                // as well.
                                lemma_subtree_trans(
                                    pre,
                                    walked_root,
                                    eseq[j].id.0,
                                    k,
                                    pre.node_at(k).spec_depth() as nat,
                                );
                                lemma_subtree_fuel_norm(
                                    pre,
                                    walked_root,
                                    k,
                                    pre.node_at(k).spec_depth() as nat + pre.node_at(
                                        eseq[j].id.0,
                                    ).spec_depth() as nat,
                                );
                                assert(false);
                            }
                            if walked {
                                assert(cur.node_at(eseq[j].id.0) == pre.node_at(eseq[j].id.0));
                            }
                        }
                    }
                }
            }
            i = i + 1;
        }
        proof {
            assert forall|k: Key| self.live(k) implies #[trigger] self.law(k) by {}
        }
    }
}


/// What a well-behaved node edit keeps intact: the links and depth that
/// carry the tree's structure, the derived world translation, and the
/// mutation flag's promises (raised when the local translation changed,
/// never lowered).
pub open spec fn edit_ok(before: RectNode, after: RectNode) -> bool {
    &&& after.spec_parent() == before.spec_parent()
    &&& after.spec_children() == before.spec_children()
    &&& after.spec_depth() == before.spec_depth()
    &&& after.spec_world() == before.spec_world()
    &&& after.local_in_range()
    &&& (after.spec_local() != before.spec_local() ==> after.spec_local_mutated())
    &&& (before.spec_local_mutated() ==> after.spec_local_mutated())
}

impl Rectree {
    /// Runs a closure over a mutable borrow of one node, then records the
    /// node for translation propagation if its local translation was
    /// touched. Returns `None`, without invoking the closure, for a stale
    /// handle.
    ///
    /// The closure is expected to edit only the node's own data (its local
    /// translation and size); an edit that meddles with the structural
    /// fields voids the tree's guarantees, as `edit_ok` spells out.
    #[verifier::rlimit(100)]
    #[verifier::spinoff_prover]
    pub fn with_node_mut<F: FnOnce(&mut RectNode) -> R, R>(&mut self, id: &NodeId, f: F) -> (r:
        Option<R>)
        requires
            old(self).wf(),
            old(self).trans_ok(),
            forall|m: &mut RectNode| #[trigger] call_requires(f, (m,)),
        ensures
            r is None ==> !old(self).live(id.0) && *final (self) == *old(self),
            r is Some ==> old(self).live(id.0),
            final (self).slot_count() == old(self).slot_count(),
            r is Some ==> exists|m: &mut RectNode, rr: R|
                {
                    &&& #[trigger] call_ensures(f, (m,), rr)
                    &&& r == Some(rr)
                    &&& mut_ref_current(m) == old(self).node_at(id.0)
                    &&& final (self).live(id.0)
                    &&& final (self).node_at(id.0) == mut_ref_future(m)
                    &&& (forall|k2: Key|
                        #[trigger] final (self).live(k2) == old(self).live(k2) && (old(self).live(
                            k2,
                        ) && k2 != id.0 ==> final (self).node_at(k2) == old(self).node_at(k2)))
                    &&& final (self).roots() == old(self).roots()
                    &&& final (self).sched() == old(self).sched()
                    &&& (edit_ok(old(self).node_at(id.0), mut_ref_future(m)) ==> final (self).wf()
                        && final (self).trans_ok())
                },
    {
        let taken = self.nodes.take_value(&id.0);
        match taken {
            Some(mut value) => {
                let ghost a = *old(self);
                let ghost before = a.node_at(id.0);
                let result = f(&mut value);
                let ghost after = value;
                let ghost gres = result;
                let depth = value.depth();
                let flagged = value.local_flag();
                self.nodes.put_value(&id.0, value);
                proof {
                    assert forall|i: int|
                        0 <= i < a.nodes.slot_count() implies (#[trigger] self.nodes.value_of(
                        i,
                    ) is Some <==> a.nodes.value_of(i) is Some) by {
                        if i != id.0.index as int {
                            assert(self.nodes.version_of(i) == a.nodes.version_of(i));
                        }
                    }
                    crate::sparse_map::lemma_wf_same_shape(a.nodes, self.nodes);
                    assert forall|q: Key| #[trigger] self.live(q) == a.live(q) by {
                        if q.index < a.nodes.slot_count() && q.index != id.0.index {
                            assert(self.nodes.version_of(q.index as int) == a.nodes.version_of(
                                q.index as int,
                            ));
                        }
                    }
                    assert forall|q: Key|
                        a.live(q) && q != id.0 implies #[trigger] self.node_at(q) == a.node_at(
                        q,
                    ) by {
                        if q.index != id.0.index {
                            assert(self.nodes.version_of(q.index as int) == a.nodes.version_of(
                                q.index as int,
                            ));
                        } else if q != id.0 {
                            assert(q.version == a.nodes.version_of(q.index as int));
                            assert(id.0.version == a.nodes.version_of(id.0.index as int));
                        }
                    }
                    assert(self.node_at(id.0) == after);
                }
                if flagged {
                    self.mutated_translations.insert(DepthNode { depth, id: *id });
                }
                proof {
                    let b = *self;
                    assert forall|q: Key| #[trigger] b.live(q) == a.live(q) by {
                        if q.index < a.nodes.slot_count() && q.index != id.0.index {
                            assert(b.nodes.version_of(q.index as int) == a.nodes.version_of(
                                q.index as int,
                            ));
                        }
                    }
                    assert forall|q: Key|
                        a.live(q) && q != id.0 implies #[trigger] b.node_at(q) == a.node_at(
                        q,
                    ) by {
                        if q.index != id.0.index {
                            assert(b.nodes.version_of(q.index as int) == a.nodes.version_of(
                                q.index as int,
                            ));
                        } else if q != id.0 {
                            assert(q.version == a.nodes.version_of(q.index as int));
                            assert(id.0.version == a.nodes.version_of(id.0.index as int));
                        }
                    }
                    assert(b.node_at(id.0) == after);
                    if edit_ok(before, after) {
                        lemma_edit_commit(a, b, id.0, flagged);
                    }
                }
                Some(result)
            },
            None => None,
        }
    }
}


/// After a well-behaved node edit was written back and (if the local
/// translation is flagged) recorded for propagation, the tree is still
/// well-formed and translation-coherent.
#[verifier::rlimit(100)]
#[verifier::spinoff_prover]
proof fn lemma_edit_commit(a: Rectree, b: Rectree, id: Key, flagged: bool)
    requires
        a.wf(),
        a.trans_ok(),
        a.live(id),
        b.arena_wf(),
        b.worklists_wf(),
        b.slot_count() == a.slot_count(),
        forall|q: Key| #[trigger] b.live(q) == a.live(q),
        forall|q: Key| a.live(q) && q != id ==> #[trigger] b.node_at(q) == a.node_at(q),
        edit_ok(a.node_at(id), b.node_at(id)),
        b.roots() == a.roots(),
        flagged == b.node_at(id).spec_local_mutated(),
        forall|e: DepthNode| a.muts().contains(e) ==> #[trigger] b.muts().contains(e),
        b.node_at(id).spec_local() != a.node_at(id).spec_local() ==> b.muts().contains(
            DepthNode { depth: b.node_at(id).spec_depth(), id: NodeId(id) },
        ),
    ensures
        b.wf(),
        b.trans_ok(),
{
    let before = a.node_at(id);
    let after = b.node_at(id);
    assert(after.spec_world() == before.spec_world());
    assert(after.spec_depth() == before.spec_depth());
    assert(-(before.spec_depth() + 1) * coord_limit() <= before.spec_world().x <= (
    before.spec_depth() + 1) * coord_limit());
    lemma_frame_world_flag(a, b, id);
    assert(b.wf());
    assert forall|k: Key| #[trigger] b.live(k) && !b.law(k) implies exists|e: DepthNode|
        #[trigger] b.muts().contains(e) && b.live(e.id.0) && b.in_subtree(e.id.0, k)
        && b.node_at(e.id.0).spec_local_mutated() by {
        assert(a.live(k));
        if !a.law(k) {
            let e = choose|e: DepthNode|
                #[trigger] a.muts().contains(e) && a.live(e.id.0) && a.in_subtree(e.id.0, k)
                    && a.node_at(e.id.0).spec_local_mutated();
            assert(b.muts().contains(e));
            assert(b.in_subtree(e.id.0, k) == a.in_subtree(e.id.0, k)) by {
                lemma_subtree_same(a, b, e.id.0, k);
            }
            assert(b.node_at(e.id.0).spec_local_mutated()) by {
                if e.id.0 == id {
                    assert(before.spec_local_mutated());
                }
            }
        } else {
            // The law broke here: only the edited node's local translation
            // can be responsible.
            assert(k == id) by {
                if k != id {
                    match a.node_at(k).spec_parent() {
                        Some(pk) => {
                            assert(a.live(pk.0));
                            assert(b.node_at(pk.0).spec_world() == a.node_at(
                                pk.0,
                            ).spec_world()) by {
                                if pk.0 == id {
                                    assert(after.spec_world() == before.spec_world());
                                }
                            }
                            lemma_law_same(a, b, k);
                        },
                        None => {
                            lemma_law_same(a, b, k);
                        },
                    }
                }
            }
            assert(after.spec_local() != before.spec_local()) by {
                if after.spec_local() == before.spec_local() {
                    lemma_law_same(a, b, k);
                }
            }
            assert(after.spec_local_mutated());
            assert(flagged);
            let se = DepthNode { depth: after.spec_depth(), id: NodeId(id) };
            assert(b.muts().contains(se));
            assert(b.in_subtree(id, id));
        }
    }
    assert(b.trans_ok());
}



/// Translation coherence does not depend on the relayout schedule.
proof fn lemma_trans_ok_worklists(a: Rectree, b: Rectree)
    requires
        a.wf(),
        a.trans_ok(),
        b.nodes == a.nodes,
        forall|e: DepthNode| a.muts().contains(e) ==> #[trigger] b.muts().contains(e),
    ensures
        b.trans_ok(),
{
    assert forall|k: Key| #[trigger] b.live(k) && !b.law(k) implies exists|e: DepthNode|
        #[trigger] b.muts().contains(e) && b.live(e.id.0) && b.in_subtree(e.id.0, k)
        && b.node_at(e.id.0).spec_local_mutated() by {
        assert(a.live(k));
        assert(b.node_at(k) == a.node_at(k));
        assert(!a.law(k)) by {
            match a.node_at(k).spec_parent() {
                Some(p) => {
                    assert(a.live(p.0));
                    assert(b.node_at(p.0) == a.node_at(p.0));
                    lemma_law_same(a, b, k);
                },
                None => {
                    lemma_law_same(a, b, k);
                },
            }
        }
        let e = choose|e: DepthNode|
            #[trigger] a.muts().contains(e) && a.live(e.id.0) && a.in_subtree(e.id.0, k)
                && a.node_at(e.id.0).spec_local_mutated();
        assert(b.muts().contains(e));
        assert(b.in_subtree(e.id.0, k) == a.in_subtree(e.id.0, k)) by {
            lemma_subtree_same(a, b, e.id.0, k);
        }
    }
}

/// Translation coherence survives a propagation walk: wherever the law
/// still fails, the old cover (outside the walked subtree) still stands.
#[verifier::rlimit(100)]
#[verifier::spinoff_prover]
proof fn lemma_trans_ok_after_walk(pre: Rectree, cur: Rectree, root: Key)
    requires
        pre.wf(),
        pre.trans_ok(),
        cur.wf(),
        pre.live(root),
        forall|k: Key| #[trigger] cur.live(k) == pre.live(k),
        forall|k: Key|
            pre.live(k) && !pre.in_subtree(root, k) ==> #[trigger] cur.node_at(k) == pre.node_at(
                k,
            ),
        forall|k: Key|
            pre.live(k) && pre.in_subtree(root, k) ==> #[trigger] cur.law(k) && !cur.node_at(
                k,
            ).spec_local_mutated(),
        forall|k: Key|
            pre.live(k) ==> #[trigger] cur.node_at(k).spec_local() == pre.node_at(
                k,
            ).spec_local() && cur.node_at(k).spec_size() == pre.node_at(k).spec_size()
                && cur.node_at(k).spec_parent() == pre.node_at(k).spec_parent() && cur.node_at(
                k,
            ).spec_children() == pre.node_at(k).spec_children() && cur.node_at(k).spec_depth()
                == pre.node_at(k).spec_depth(),
        cur.muts() == pre.muts(),
    ensures
        cur.trans_ok(),
{
    assert forall|k: Key| #[trigger] cur.live(k) && !cur.law(k) implies exists|e: DepthNode|
        #[trigger] cur.muts().contains(e) && cur.live(e.id.0) && cur.in_subtree(e.id.0, k)
        && cur.node_at(e.id.0).spec_local_mutated() by {
        assert(pre.live(k));
        assert(!pre.in_subtree(root, k));
        assert(cur.node_at(k) == pre.node_at(k));
        assert(!pre.law(k)) by {
            if pre.law(k) {
                match pre.node_at(k).spec_parent() {
                    Some(pk) => {
                        assert(pre.live(pk.0));
                        assert(!pre.in_subtree(root, pk.0)) by {
                            if pre.in_subtree(root, pk.0) {
                                assert(pre.in_subtree_fuel(
                                    root,
                                    k,
                                    pre.node_at(k).spec_depth() as nat,
                                ));
                            }
                        }
                        assert(cur.node_at(pk.0) == pre.node_at(pk.0));
                        lemma_law_same(pre, cur, k);
                    },
                    None => {
                        lemma_law_same(pre, cur, k);
                    },
                }
            }
        }
        let e = choose|e: DepthNode|
            #[trigger] pre.muts().contains(e) && pre.live(e.id.0) && pre.in_subtree(e.id.0, k)
                && pre.node_at(e.id.0).spec_local_mutated();
        assert(cur.muts().contains(e));
        assert(cur.live(e.id.0));
        assert(cur.in_subtree(e.id.0, k) == pre.in_subtree(e.id.0, k)) by {
            lemma_subtree_same(pre, cur, e.id.0, k);
        }
        assert(cur.node_at(e.id.0).spec_local_mutated()) by {
            if pre.in_subtree(root, e.id.0) {
                lemma_subtree_trans(pre, root, e.id.0, k, pre.node_at(k).spec_depth() as nat);
                lemma_subtree_fuel_norm(
                    pre,
                    root,
                    k,
                    pre.node_at(k).spec_depth() as nat + pre.node_at(e.id.0).spec_depth() as nat,
                );
                assert(false);
            }
            assert(cur.node_at(e.id.0) == pre.node_at(e.id.0));
        }
    }
}

/// The total weight of a worklist for bottom-up consumption: deeper
/// entries weigh exponentially more, so replacing an entry by its parent
/// strictly shrinks the total.
pub open spec fn set_weight(s: Seq<DepthNode>) -> int
    decreases s.len(),
{
    if s.len() == 0 {
        0
    } else {
        vstd::arithmetic::power2::pow2(s.last().depth as nat) as int + set_weight(s.drop_last())
    }
}

/// Weights are nonnegative.
proof fn lemma_weight_nonneg(s: Seq<DepthNode>)
    ensures
        set_weight(s) >= 0,
    decreases s.len(),
{
    if s.len() > 0 {
        lemma_weight_nonneg(s.drop_last());
    }
}

/// Inserting an entry adds exactly its weight.
proof fn lemma_weight_insert(s: Seq<DepthNode>, p: int, e: DepthNode)
    requires
        0 <= p <= s.len(),
    ensures
        set_weight(s.insert(p, e)) == set_weight(s) + vstd::arithmetic::power2::pow2(
            e.depth as nat,
        ),
    decreases s.len(),
{
    let s2 = s.insert(p, e);
    if p == s.len() {
        assert(s2.drop_last() =~= s);
        assert(s2.last() == e);
    } else {
        assert(s2.last() == s.last());
        assert(s2.drop_last() =~= s.drop_last().insert(p, e));
        lemma_weight_insert(s.drop_last(), p, e);
    }
}

impl Rectree {
    /// One soft node edit for the layout pass: overwrite the freshness
    /// bits, the stored constraint and the size, leaving translations and
    /// links alone.
    #[verifier::rlimit(100)]
    #[verifier::spinoff_prover]
    fn soft_update(
        &mut self,
        id: NodeId,
        state: crate::node::NodeState,
        constraint: crate::layout::Constraint,
        size: crate::geom::Size,
    )
        requires
            old(self).wf(),
            old(self).trans_ok(),
            old(self).live(id.0),
        ensures
            final (self).wf(),
            final (self).trans_ok(),
            final (self).roots() == old(self).roots(),
            final (self).sched() == old(self).sched(),
            final (self).muts() == old(self).muts(),
            final (self).slot_count() == old(self).slot_count(),
            forall|k: Key| #[trigger] final (self).live(k) == old(self).live(k),
            forall|k: Key|
                old(self).live(k) && k != id.0 ==> #[trigger] final (self).node_at(k) == old(
                    self,
                ).node_at(k),
            final (self).live(id.0),
            final (self).node_at(id.0).spec_state() == state,
            final (self).node_at(id.0).spec_constraint() == constraint,
            final (self).node_at(id.0).spec_size() == size,
            final (self).node_at(id.0).spec_local() == old(self).node_at(id.0).spec_local(),
            final (self).node_at(id.0).spec_local_mutated() == old(self).node_at(
                id.0,
            ).spec_local_mutated(),
            final (self).node_at(id.0).spec_world() == old(self).node_at(id.0).spec_world(),
            final (self).node_at(id.0).spec_parent() == old(self).node_at(id.0).spec_parent(),
            final (self).node_at(id.0).spec_children() == old(self).node_at(id.0).spec_children(),
            final (self).node_at(id.0).spec_depth() == old(self).node_at(id.0).spec_depth(),
    {
        let ghost a = *old(self);
        let node_mut = self.nodes.get_mut(&id.0).unwrap();
        node_mut.set_state_value(state);
        node_mut.set_constraint_value(constraint);
        node_mut.set_size(size);
        proof {
            let b = *self;
            assert forall|i: int|
                0 <= i < a.nodes.slot_count() implies (#[trigger] b.nodes.value_of(i) is Some
                <==> a.nodes.value_of(i) is Some) by {
                if i != id.0.index as int {
                    assert(b.nodes.version_of(i) == a.nodes.version_of(i));
                }
            }
            crate::sparse_map::lemma_wf_same_shape(a.nodes, b.nodes);
            assert forall|q: Key| #[trigger] b.live(q) == a.live(q) by {
                if q.index < a.nodes.slot_count() && q.index != id.0.index {
                    assert(b.nodes.version_of(q.index as int) == a.nodes.version_of(
                        q.index as int,
                    ));
                }
            }
            assert forall|q: Key|
                a.live(q) && q != id.0 implies #[trigger] b.node_at(q) == a.node_at(q) by {
                if q.index != id.0.index {
                    assert(b.nodes.version_of(q.index as int) == a.nodes.version_of(
                        q.index as int,
                    ));
                } else if q != id.0 {
                    assert(q.version == a.nodes.version_of(q.index as int));
                    assert(id.0.version == a.nodes.version_of(id.0.index as int));
                }
            }
            lemma_edit_commit(a, b, id.0, b.node_at(id.0).spec_local_mutated());
        }
    }
}


/// The translation the positioner commits to a node, if any: the last
/// recorded in-range entry naming it wins.
pub open spec fn last_position_for(view: Seq<(NodeId, Vec2)>, k: Key) -> Option<Vec2>
    decreases view.len(),
{
    if view.len() == 0 {
        None
    } else if view.last().0.pair() == NodeId(k).pair() && -coord_limit() <= view.last().1.x
        <= coord_limit() && -coord_limit() <= view.last().1.y <= coord_limit() {
        Some(view.last().1)
    } else {
        last_position_for(view.drop_last(), k)
    }
}

impl Rectree {
    /// Commits the translations a solver recorded: each named child that is
    /// still live and whose reported translation is in the safe coordinate
    /// range gets its new local translation (the last recorded entry for a
    /// node wins) and is entered into the pending translation set.
    #[verifier::rlimit(100)]
    #[verifier::spinoff_prover]
    fn apply_positions(&mut self, positioner: &crate::layout::Positioner)
        requires
            old(self).wf(),
            old(self).trans_ok(),
        ensures
            final (self).wf(),
            final (self).trans_ok(),
            final (self).roots() == old(self).roots(),
            final (self).sched() == old(self).sched(),
            final (self).slot_count() == old(self).slot_count(),
            forall|e: DepthNode|
                old(self).muts().contains(e) ==> #[trigger] final (self).muts().contains(e),
            forall|k: Key| #[trigger] final (self).live(k) == old(self).live(k),
            forall|k: Key|
                old(self).live(k) ==> #[trigger] final (self).node_at(k).spec_parent() == old(
                    self,
                ).node_at(k).spec_parent() && final (self).node_at(k).spec_children() == old(
                    self,
                ).node_at(k).spec_children() && final (self).node_at(k).spec_depth() == old(
                    self,
                ).node_at(k).spec_depth() && final (self).node_at(k).spec_state() == old(
                    self,
                ).node_at(k).spec_state() && final (self).node_at(k).spec_constraint() == old(
                    self,
                ).node_at(k).spec_constraint() && final (self).node_at(k).spec_size() == old(
                    self,
                ).node_at(k).spec_size() && final (self).node_at(k).spec_world() == old(
                    self,
                ).node_at(k).spec_world(),
            // Last writer wins: each live node ends at the last in-range
            // translation recorded for it, or keeps its old one.
            forall|k: Key|
                old(self).live(k) ==> #[trigger] final (self).node_at(k).spec_local() == (
                match last_position_for(positioner.view(), k) {
                    Some(v) => v,
                    None => old(self).node_at(k).spec_local(),
                }) && (last_position_for(positioner.view(), k) is Some ==> final (self).node_at(
                    k,
                ).spec_local_mutated()),
    {
        let ghost a = *old(self);
        let n = positioner.len();
        let mut i: usize = 0;
        #[verifier::loop_isolation(false)]
        while i < n
            invariant
                self.wf(),
                self.trans_ok(),
                self.roots() == a.roots(),
                self.sched() == a.sched(),
                self.slot_count() == a.slot_count(),
                forall|e: DepthNode| a.muts().contains(e) ==> #[trigger] self.muts().contains(e),
                forall|k: Key| #[trigger] self.live(k) == a.live(k),
                forall|k: Key|
                    a.live(k) ==> #[trigger] self.node_at(k).spec_parent() == a.node_at(
                        k,
                    ).spec_parent() && self.node_at(k).spec_children() == a.node_at(
                        k,
                    ).spec_children() && self.node_at(k).spec_depth() == a.node_at(
                        k,
                    ).spec_depth() && self.node_at(k).spec_state() == a.node_at(
                        k,
                    ).spec_state() && self.node_at(k).spec_constraint() == a.node_at(
                        k,
                    ).spec_constraint() && self.node_at(k).spec_size() == a.node_at(
                        k,
                    ).spec_size() && self.node_at(k).spec_world() == a.node_at(k).spec_world(),
                forall|k: Key|
                    a.live(k) ==> #[trigger] self.node_at(k).spec_local() == (
                    match last_position_for(positioner.view().take(i as int), k) {
                        Some(v) => v,
                        None => a.node_at(k).spec_local(),
                    }) && (last_position_for(positioner.view().take(i as int), k) is Some
                        ==> self.node_at(k).spec_local_mutated()),
                0 <= i <= n,
                n == positioner.view().len(),
            decreases n - i,
        {
            let ghost m_pre = self.muts();
            let (cid, v) = positioner.entry_at(i);
            let in_range = v.x >= -0x8000_0000i64 && v.x <= 0x8000_0000i64 && v.y
                >= -0x8000_0000i64 && v.y <= 0x8000_0000i64;
            if in_range && self.nodes.contains(&cid.0) {
                let ghost s0 = *self;
                let node_mut = self.nodes.get_mut(&cid.0).unwrap();
                node_mut.set_local_translation(v);
                let depth = self.nodes.get(&cid.0).unwrap().depth();
                let _ = self.mutated_translations.insert(DepthNode { depth, id: cid });
                proof {
                    let b = *self;
                    assert forall|i2: int|
                        0 <= i2 < s0.nodes.slot_count() implies (#[trigger] b.nodes.value_of(
                        i2,
                    ) is Some <==> s0.nodes.value_of(i2) is Some) by {
                        if i2 != cid.0.index as int {
                            assert(b.nodes.version_of(i2) == s0.nodes.version_of(i2));
                        }
                    }
                    crate::sparse_map::lemma_wf_same_shape(s0.nodes, b.nodes);
                    assert forall|q: Key| #[trigger] b.live(q) == s0.live(q) by {
                        if q.index < s0.nodes.slot_count() && q.index != cid.0.index {
                            assert(b.nodes.version_of(q.index as int) == s0.nodes.version_of(
                                q.index as int,
                            ));
                        }
                    }
                    assert forall|q: Key|
                        s0.live(q) && q != cid.0 implies #[trigger] b.node_at(q) == s0.node_at(
                        q,
                    ) by {
                        if q.index != cid.0.index {
                            assert(b.nodes.version_of(q.index as int) == s0.nodes.version_of(
                                q.index as int,
                            ));
                        } else if q != cid.0 {
                            assert(q.version == s0.nodes.version_of(q.index as int));
                            assert(cid.0.version == s0.nodes.version_of(cid.0.index as int));
                        }
                    }
                    assert(NodeId(cid.0) == cid) by {
                        assert(NodeId(cid.0).pair() == cid.pair());
                    }
                    lemma_edit_commit(s0, b, cid.0, true);
                }
            }
            proof {
                let pref = positioner.view().take(i as int);
                let pref2 = positioner.view().take(i + 1);
                assert(pref2.drop_last() =~= pref);
                assert(pref2.last() == positioner.view()[i as int]);
                assert forall|k: Key|
                    a.live(k) implies #[trigger] self.node_at(k).spec_local() == (
                match last_position_for(pref2, k) {
                    Some(v) => v,
                    None => a.node_at(k).spec_local(),
                }) && (last_position_for(pref2, k) is Some ==> self.node_at(
                    k,
                ).spec_local_mutated()) by {
                    if pref2.last().0.pair() == NodeId(k).pair() && -coord_limit()
                        <= pref2.last().1.x <= coord_limit() && -coord_limit() <= pref2.last().1.y
                        <= coord_limit() {
                        assert(cid.pair() == NodeId(k).pair());
                        assert(cid.0 == k) by {
                            assert(cid.0.index == k.index && cid.0.version == k.version);
                        }
                        assert(self.live(k) == a.live(k));
                    }
                }
                assert forall|e: DepthNode|
                    a.muts().contains(e) implies #[trigger] self.muts().contains(e) by {
                    assert(m_pre.contains(e));
                }
            }
            i = i + 1;
        }
        proof {
            assert(positioner.view().take(n as int) =~= positioner.view());
        }
    }

    /// Propagates a constraint down from one node: the node is marked
    /// constrained and queued for rebuild; children whose stored constraint
    /// differs from the one computed here are updated and descended into,
    /// while matching subtrees are skipped.
    #[verifier::rlimit(100)]
    #[verifier::spinoff_prover]
    fn phase_constrain<W: crate::layout::LayoutWorld>(
        &mut self,
        world: &W,
        id: NodeId,
        build: &mut DepthSet,
    )
        requires
            old(self).wf(),
            old(self).trans_ok(),
            old(self).live(id.0),
            old(build).wf(),
        ensures
            final (self).wf(),
            final (self).trans_ok(),
            final (build).wf(),
            final (self).roots() == old(self).roots(),
            final (self).sched() == old(self).sched(),
            final (self).muts() == old(self).muts(),
            final (self).slot_count() == old(self).slot_count(),
            forall|k: Key| #[trigger] final (self).live(k) == old(self).live(k),
            forall|k: Key|
                old(self).live(k) ==> #[trigger] final (self).node_at(k).spec_parent() == old(
                    self,
                ).node_at(k).spec_parent() && final (self).node_at(k).spec_children() == old(
                    self,
                ).node_at(k).spec_children() && final (self).node_at(k).spec_depth() == old(
                    self,
                ).node_at(k).spec_depth(),
            // Every node this walk touched is marked constrained, unbuilt,
            // and queued for rebuild; everything else is untouched.
            forall|k: Key|
                old(self).live(k) ==> #[trigger] final (self).node_at(k) == old(self).node_at(k)
                    || (final (self).node_at(k).spec_state() == (crate::node::NodeState {
                    constrained: true,
                    built: false,
                    positioned: old(self).node_at(k).spec_state().positioned,
                }) && final (self).node_at(k).spec_local() == old(self).node_at(k).spec_local()
                    && final (self).node_at(k).spec_local_mutated() == old(self).node_at(
                    k,
                ).spec_local_mutated() && final (self).node_at(k).spec_size() == old(
                    self,
                ).node_at(k).spec_size() && final (self).node_at(k).spec_world() == old(
                    self,
                ).node_at(k).spec_world() && final (build).view().contains(
                    DepthNode { depth: old(self).node_at(k).spec_depth(), id: NodeId(k) },
                )),
            final (self).node_at(id.0).spec_state() == (crate::node::NodeState {
                constrained: true,
                built: false,
                positioned: old(self).node_at(id.0).spec_state().positioned,
            }),
            final (build).view().contains(
                DepthNode { depth: old(self).node_at(id.0).spec_depth(), id },
            ),
            forall|e: DepthNode|
                old(build).view().contains(e) ==> #[trigger] final (build).view().contains(e),
        decreases (old(self).slot_count() - old(self).node_at(id.0).spec_depth()) as nat,
    {
        let ghost a = *old(self);
        let node = self.nodes.get(&id.0).unwrap();
        let own_constraint = node.constraint();
        let depth = node.depth();
        let st = node.state();
        let size = node.size();
        let computed = {
            let solver = world.get_solver(&id);
            solver.constraint(own_constraint)
        };
        self.soft_update(
            id,
            crate::node::NodeState { constrained: true, built: false, positioned: st.positioned },
            own_constraint,
            size,
        );
        let _ = build.insert(DepthNode { depth, id });
        let kids = self.nodes.get(&id.0).unwrap().child_ids();
        let n = kids.len();
        let mut i: usize = 0;
        #[verifier::loop_isolation(false)]
        while i < n
            invariant
                self.wf(),
                self.trans_ok(),
                build.wf(),
                self.roots() == a.roots(),
                self.sched() == a.sched(),
                self.muts() == a.muts(),
                self.slot_count() == a.slot_count(),
                self.live(id.0),
                self.node_at(id.0).spec_depth() == a.node_at(id.0).spec_depth(),
                self.node_at(id.0).spec_children() == a.node_at(id.0).spec_children(),
                forall|k: Key| #[trigger] self.live(k) == a.live(k),
                forall|k: Key|
                    a.live(k) ==> #[trigger] self.node_at(k).spec_parent() == a.node_at(
                        k,
                    ).spec_parent() && self.node_at(k).spec_children() == a.node_at(
                        k,
                    ).spec_children() && self.node_at(k).spec_depth() == a.node_at(
                        k,
                    ).spec_depth(),
                forall|k: Key|
                    a.live(k) ==> #[trigger] self.node_at(k) == a.node_at(k) || (self.node_at(
                        k,
                    ).spec_state() == (crate::node::NodeState {
                        constrained: true,
                        built: false,
                        positioned: a.node_at(k).spec_state().positioned,
                    }) && self.node_at(k).spec_local() == a.node_at(k).spec_local()
                        && self.node_at(k).spec_local_mutated() == a.node_at(
                        k,
                    ).spec_local_mutated() && self.node_at(k).spec_size() == a.node_at(
                        k,
                    ).spec_size() && self.node_at(k).spec_world() == a.node_at(k).spec_world()
                        && build.view().contains(
                        DepthNode { depth: a.node_at(k).spec_depth(), id: NodeId(k) },
                    )),
                self.node_at(id.0).spec_state() == (crate::node::NodeState {
                    constrained: true,
                    built: false,
                    positioned: a.node_at(id.0).spec_state().positioned,
                }),
                build.view().contains(
                    DepthNode { depth: a.node_at(id.0).spec_depth(), id },
                ),
                forall|e: DepthNode|
                    old(build).view().contains(e) ==> #[trigger] build.view().contains(e),
                0 <= i <= n,
                n == kids@.len(),
                forall|t: int| 0 <= t < n ==> a.node_at(id.0).spec_children().contains(
                    #[trigger] crate::node_set::pairs_of(kids@)[t],
                ),
            decreases n - i,
        {
            let c = kids[i];
            proof {
                assert(crate::node_set::pairs_of(kids@)[i as int] == c.pair());
                assert(self.node_at(id.0).spec_children().contains(NodeId(c.0).pair()));
                assert(self.live(c.0));
                assert(self.node_at(c.0).spec_parent() == Some(NodeId(id.0)));
                assert(NodeId(id.0) == id) by {
                    assert(NodeId(id.0).pair() == id.pair());
                }
                assert(self.node_at(c.0).spec_depth() == a.node_at(id.0).spec_depth() + 1);
                assert(self.node_at(c.0).spec_depth() < self.slot_count());
            }
            let cnode = self.nodes.get(&c.0).unwrap();
            let child_constraint = cnode.constraint();
            if !child_constraint.same(&computed) {
                let cst = cnode.state();
                let csize = cnode.size();
                self.soft_update(c, cst, computed, csize);
                proof {
                    assert(self.live(c.0));
                    assert(self.node_at(c.0).spec_depth() == a.node_at(id.0).spec_depth() + 1);
                    assert(self.node_at(c.0).spec_depth() < self.slot_count());
                    assert(((self.slot_count() - self.node_at(c.0).spec_depth()) as nat) < ((
                    a.slot_count() - a.node_at(id.0).spec_depth()) as nat));
                }
                let ghost pre = *self;
                let ghost bpre = build.view();
                self.phase_constrain(world, c, build);
                proof {
                    assert forall|k: Key|
                        a.live(k) implies #[trigger] self.node_at(k) == a.node_at(k) || (
                    self.node_at(k).spec_state() == (crate::node::NodeState {
                        constrained: true,
                        built: false,
                        positioned: a.node_at(k).spec_state().positioned,
                    }) && self.node_at(k).spec_local() == a.node_at(k).spec_local()
                        && self.node_at(k).spec_local_mutated() == a.node_at(
                        k,
                    ).spec_local_mutated() && self.node_at(k).spec_size() == a.node_at(
                        k,
                    ).spec_size() && self.node_at(k).spec_world() == a.node_at(k).spec_world()
                        && build.view().contains(
                        DepthNode { depth: a.node_at(k).spec_depth(), id: NodeId(k) },
                    )) by {
                        assert(pre.live(k));
                        if self.node_at(k) == pre.node_at(k) {
                            if pre.node_at(k) == a.node_at(k) {
                            } else if k == c.0 {
                                // The constraint write before the recursion
                                // kept the state, and the walk then queued
                                // this child.
                                assert(self.node_at(c.0).spec_state()
                                    == (crate::node::NodeState {
                                    constrained: true,
                                    built: false,
                                    positioned: pre.node_at(c.0).spec_state().positioned,
                                }) || self.node_at(k) == pre.node_at(k));
                            }
                        }
                    }
                }
            }
            i = i + 1;
        }
    }
}


impl Rectree {
    /// Whether a worklist entry's node is constrained and either already
    /// rebuilt or queued for rebuild at its own depth.
    pub open spec fn entry_queued(self, e: DepthNode, build: Seq<DepthNode>) -> bool {
        self.live(e.id.0) ==> self.node_at(e.id.0).spec_state().constrained && (self.node_at(
            e.id.0,
        ).spec_state().built || build.contains(
            DepthNode { depth: self.node_at(e.id.0).spec_depth(), id: e.id },
        ))
    }

    /// Phase one of the layout pass: lowers every scheduled live node's
    /// freshness bits, then propagates constraints down from each seed,
    /// collecting everything visited into the build set and every seed into
    /// the translation set.
    #[verifier::rlimit(100)]
    #[verifier::spinoff_prover]
    fn run_phase_constrain<W: crate::layout::LayoutWorld>(
        &mut self,
        world: &W,
        scheduled: &DepthSet,
        build: &mut DepthSet,
        trans: &mut DepthSet,
    )
        requires
            old(self).wf(),
            old(self).trans_ok(),
            scheduled.wf(),
            old(build).wf(),
            old(trans).wf(),
        ensures
            final (self).wf(),
            final (self).trans_ok(),
            final (build).wf(),
            final (trans).wf(),
            final (self).sched() == old(self).sched(),
            final (self).roots() == old(self).roots(),
            final (self).slot_count() == old(self).slot_count(),
            forall|k: Key| #[trigger] final (self).live(k) == old(self).live(k),
            forall|k: Key|
                old(self).live(k) ==> #[trigger] final (self).node_at(k).spec_parent() == old(
                    self,
                ).node_at(k).spec_parent() && final (self).node_at(k).spec_children() == old(
                    self,
                ).node_at(k).spec_children() && final (self).node_at(k).spec_depth() == old(
                    self,
                ).node_at(k).spec_depth(),
            forall|e: DepthNode|
                old(self).muts().contains(e) ==> #[trigger] final (self).muts().contains(e),
            forall|t: int|
                0 <= t < scheduled.view().len() ==> final (self).entry_queued(
                    #[trigger] scheduled.view()[t],
                    final (build).view(),
                ) && final (trans).view().contains(scheduled.view()[t]),
            scheduled.view().len() == 0 ==> *final (self) == *old(self) && *final (build) == *old(
                build,
            ) && *final (trans) == *old(trans),
    {
        let n_seeds = scheduled.len();
        // Lower the bits of every scheduled live node first, so that the
        // constrained bit means exactly "processed in this pass".
        let mut c: usize = 0;
        #[verifier::loop_isolation(false)]
        while c < n_seeds
            invariant
                self.wf(),
                self.trans_ok(),
                0 <= c <= n_seeds,
                n_seeds == scheduled.view().len(),
                self.sched() == old(self).sched(),
                self.roots() == old(self).roots(),
                self.slot_count() == old(self).slot_count(),
                self.muts() == old(self).muts(),
                forall|k: Key| #[trigger] self.live(k) == old(self).live(k),
                forall|k: Key|
                    old(self).live(k) ==> #[trigger] self.node_at(k).spec_parent() == old(
                        self,
                    ).node_at(k).spec_parent() && self.node_at(k).spec_children() == old(
                        self,
                    ).node_at(k).spec_children() && self.node_at(k).spec_depth() == old(
                        self,
                    ).node_at(k).spec_depth(),
                forall|t: int|
                    0 <= t < c ==> self.live((#[trigger] scheduled.view()[t]).id.0)
                        ==> !self.node_at(scheduled.view()[t].id.0).spec_state().constrained,
                n_seeds == 0 ==> *self == *old(self),
            decreases n_seeds - c,
        {
            let seed = scheduled.get_at(c);
            if self.nodes.contains(&seed.id.0) {
                let nref = self.nodes.get(&seed.id.0).unwrap();
                let cst = nref.constraint();
                let sz = nref.size();
                self.soft_update(
                    seed.id,
                    crate::node::NodeState {
                        constrained: false,
                        built: false,
                        positioned: false,
                    },
                    cst,
                    sz,
                );
                proof {
                    assert forall|t: int|
                        0 <= t < c + 1 implies self.live((#[trigger] scheduled.view()[t]).id.0)
                        ==> !self.node_at(scheduled.view()[t].id.0).spec_state().constrained by {
                        if t < c && scheduled.view()[t].id.0 != seed.id.0 {
                            assert(self.node_at(scheduled.view()[t].id.0).spec_state()
                                == old(self).node_at(scheduled.view()[t].id.0).spec_state()
                                || true);
                        }
                    }
                }
            }
            c = c + 1;
        }
        // Propagate constraints down from each seed; a seed an earlier walk
        // already constrained is skipped, and every seed enters the
        // translation set.
        let mut i: usize = 0;
        #[verifier::loop_isolation(false)]
        while i < n_seeds
            invariant
                self.wf(),
                self.trans_ok(),
                build.wf(),
                trans.wf(),
                0 <= i <= n_seeds,
                n_seeds == scheduled.view().len(),
                self.sched() == old(self).sched(),
                self.roots() == old(self).roots(),
                self.slot_count() == old(self).slot_count(),
                forall|k: Key| #[trigger] self.live(k) == old(self).live(k),
                forall|k: Key|
                    old(self).live(k) ==> #[trigger] self.node_at(k).spec_parent() == old(
                        self,
                    ).node_at(k).spec_parent() && self.node_at(k).spec_children() == old(
                        self,
                    ).node_at(k).spec_children() && self.node_at(k).spec_depth() == old(
                        self,
                    ).node_at(k).spec_depth(),
                forall|e: DepthNode|
                    old(self).muts().contains(e) ==> #[trigger] self.muts().contains(e),
                // Every scheduled node that is constrained by now was
                // queued by the walk that constrained it.
                forall|t: int|
                    0 <= t < n_seeds ==> self.live((#[trigger] scheduled.view()[t]).id.0)
                        && self.node_at(scheduled.view()[t].id.0).spec_state().constrained
                        ==> !self.node_at(scheduled.view()[t].id.0).spec_state().built
                        && build.view().contains(
                        DepthNode {
                            depth: self.node_at(scheduled.view()[t].id.0).spec_depth(),
                            id: scheduled.view()[t].id,
                        },
                    ),
                forall|t: int|
                    0 <= t < i ==> (self.live((#[trigger] scheduled.view()[t]).id.0)
                        ==> self.node_at(scheduled.view()[t].id.0).spec_state().constrained)
                        && trans.view().contains(scheduled.view()[t]),
                n_seeds == 0 ==> *self == *old(self) && *build == *old(build) && *trans == *old(
                    trans,
                ),
            decreases n_seeds - i,
        {
            let seed = scheduled.get_at(i);
            let ghost pre = *self;
            if self.nodes.contains(&seed.id.0) {
                let constrained = self.nodes.get(&seed.id.0).unwrap().state().constrained;
                if !constrained {
                    self.phase_constrain(world, seed.id, build);
                    proof {
                        assert(NodeId(seed.id.0) == seed.id) by {
                            assert(NodeId(seed.id.0).pair() == seed.id.pair());
                        }
                        assert forall|t: int|
                            0 <= t < n_seeds && self.live(
                                (#[trigger] scheduled.view()[t]).id.0,
                            ) && self.node_at(
                                scheduled.view()[t].id.0,
                            ).spec_state().constrained implies !self.node_at(
                            scheduled.view()[t].id.0,
                        ).spec_state().built && build.view().contains(
                            DepthNode {
                                depth: self.node_at(scheduled.view()[t].id.0).spec_depth(),
                                id: scheduled.view()[t].id,
                            },
                        ) by {
                            let k = scheduled.view()[t].id.0;
                            assert(pre.live(k));
                            if self.node_at(k) == pre.node_at(k) {
                                assert(pre.node_at(k).spec_state().constrained);
                            } else {
                                assert(NodeId(k) == scheduled.view()[t].id) by {
                                    assert(NodeId(k).pair() == scheduled.view()[t].id.pair());
                                }
                            }
                        }
                    }
                }
            }
            let _ = trans.insert(seed);
            i = i + 1;
        }
    }
}




impl Rectree {
    /// The arena's slot array, as `(generation, stored node)` pairs: the
    /// full node storage, for take-and-reinsert contracts.
    pub closed spec fn arena_model(self) -> Seq<(u32, Option<RectNode>)> {
        self.nodes.slots_model()
    }

    /// The arena's free list.
    pub closed spec fn arena_free(self) -> Seq<usize> {
        self.nodes.free_list()
    }

    /// How the arena model relates to the tree's other observers.
    pub proof fn lemma_arena_model(self)
        ensures
            self.arena_model().len() == self.slot_count(),
            forall|k: Key|
                k.index < self.slot_count() ==> (#[trigger] self.live(k) <==> (
                self.arena_model()[k.index as int].0 == k.version
                    && self.arena_model()[k.index as int].1 is Some)),
            forall|k: Key|
                #[trigger] self.live(k) ==> self.arena_model()[k.index as int] == (
                k.version,
                Some(self.node_at(k)),
            ),
    {
        self.nodes.lemma_slots_model();
    }

    /// Temporarily removes one node, hands it to `f` together with the rest
    /// of the tree, then reinserts the node `f` returns into the same slot
    /// with the slot's generation unchanged. Returns `None`, without
    /// invoking `f`, when the handle is stale.
    ///
    /// While `f` runs the slot is reserved-empty: still allocated, not
    /// offered for reuse, holding no node. `f` may read and mutate the rest
    /// of the tree; `with_node_mut` is the form that keeps the tree's
    /// guarantees.
    #[verifier::rlimit(100)]
    #[verifier::spinoff_prover]
    pub fn node_scope<F: FnOnce(Self, RectNode) -> (Self, RectNode, R), R>(
        &mut self,
        id: &NodeId,
        f: F,
    ) -> (r: Option<R>)
        requires
            forall|m: Rectree, v: RectNode| #[trigger] call_requires(f, (m, v)),
            forall|m: Rectree, v: RectNode, out: (Rectree, RectNode, R)|
                #[trigger] call_ensures(f, (m, v), out) ==> out.0.slot_count() >= m.slot_count(),
        ensures
            r is None ==> !old(self).live(id.0) && *final (self) == *old(self),
            r is Some ==> old(self).live(id.0),
            // `f` saw the tree with the node taken out together with the
            // node; afterwards the tree is the one `f` returned, with the
            // node `f` returned put back into the slot under the slot's
            // kept generation.
            r is Some ==> exists|t1: Rectree, t2: Rectree, n2: RectNode, rr: R|
                {
                    &&& #[trigger] call_ensures(f, (t1, old(self).node_at(id.0)), (t2, n2, rr))
                    &&& r == Some(rr)
                    &&& t1.arena_model() == old(self).arena_model().update(
                        id.0.index as int,
                        (id.0.version, Option::<RectNode>::None),
                    )
                    &&& t1.arena_free() == old(self).arena_free()
                    &&& t1.roots() == old(self).roots()
                    &&& t1.sched() == old(self).sched()
                    &&& t1.muts() == old(self).muts()
                    &&& id.0.index < t2.arena_model().len()
                    &&& final (self).arena_model() == t2.arena_model().update(
                        id.0.index as int,
                        (t2.arena_model()[id.0.index as int].0, Some(n2)),
                    )
                    &&& final (self).arena_free() == t2.arena_free()
                    &&& final (self).roots() == t2.roots()
                    &&& final (self).sched() == t2.sched()
                    &&& final (self).muts() == t2.muts()
                },
    {
        let taken = self.nodes.take_value(&id.0);
        match taken {
            Some(node) => {
                let mut tmp = Rectree::empty_shell();
                core::mem::swap(&mut tmp, self);
                let ghost t1g = tmp;
                proof {
                    t1g.nodes.lemma_slots_model();
                    old(self).nodes.lemma_slots_model();
                }
                let (t2, n2, result) = f(tmp, node);
                let ghost t2g = t2;
                let ghost n2g = n2;
                let ghost resg = result;
                *self = t2;
                proof {
                    self.nodes.lemma_slots_model();
                    crate::sparse_map::lemma_slot_count_bound(&self.nodes);
                }
                self.nodes.put_value(&id.0, n2);
                proof {
                    assert(call_ensures(f, (t1g, old(self).node_at(id.0)), (t2g, n2g, resg)));
                    assert(self.arena_model() == t2g.arena_model().update(
                        id.0.index as int,
                        (t2g.arena_model()[id.0.index as int].0, Some(n2g)),
                    )) by {
                        t2g.nodes.lemma_slots_model();
                    }
                }
                Some(result)
            },
            None => None,
        }
    }

    /// An empty tree used as a placeholder while a scope runs.
    fn empty_shell() -> (r: Self)
        ensures
            r.slot_count() == 0,
    {
        Rectree {
            root_ids: NodeSet::new(),
            nodes: SparseMap::new(),
            scheduled_relayout: DepthSet::new(),
            mutated_translations: DepthSet::new(),
        }
    }
}


impl Rectree {
    /// One node of a propagation walk: writes `world = local + base`,
    /// lowers the mutation flag and raises the positioned bit, touching
    /// nothing else.
    #[verifier::rlimit(100)]
    #[verifier::spinoff_prover]
    fn walk_root_update(&mut self, id: NodeId, base: Vec2)
        requires
            old(self).wf(),
            old(self).live(id.0),
            match old(self).node_at(id.0).spec_parent() {
                Some(p) => base == old(self).node_at(p.0).spec_world(),
                None => base == (Vec2 { x: 0, y: 0 }),
            },
        ensures
            final (self).wf(),
            final (self).slot_count() == old(self).slot_count(),
            final (self).roots() == old(self).roots(),
            final (self).sched() == old(self).sched(),
            final (self).muts() == old(self).muts(),
            forall|k: Key| #[trigger] final (self).live(k) == old(self).live(k),
            forall|k: Key|
                old(self).live(k) && k != id.0 ==> #[trigger] final (self).node_at(k) == old(
                    self,
                ).node_at(k),
            final (self).node_at(id.0).spec_world().x == base.x + old(self).node_at(
                id.0,
            ).spec_local().x,
            final (self).node_at(id.0).spec_world().y == base.y + old(self).node_at(
                id.0,
            ).spec_local().y,
            !final (self).node_at(id.0).spec_local_mutated(),
            final (self).node_at(id.0).spec_state() == (crate::node::NodeState {
                constrained: old(self).node_at(id.0).spec_state().constrained,
                built: old(self).node_at(id.0).spec_state().built,
                positioned: true,
            }),
            final (self).node_at(id.0).spec_local() == old(self).node_at(id.0).spec_local(),
            final (self).node_at(id.0).spec_size() == old(self).node_at(id.0).spec_size(),
            final (self).node_at(id.0).spec_constraint() == old(self).node_at(
                id.0,
            ).spec_constraint(),
            final (self).node_at(id.0).spec_parent() == old(self).node_at(id.0).spec_parent(),
            final (self).node_at(id.0).spec_children() == old(self).node_at(id.0).spec_children(),
            final (self).node_at(id.0).spec_depth() == old(self).node_at(id.0).spec_depth(),
            final (self).law(id.0),
    {
        let ghost a = *old(self);
        let node_ref = self.nodes.get(&id.0).unwrap();
        let local = node_ref.local_translation();
        let ghost depth = a.node_at(id.0).spec_depth() as int;
        proof {
            assert(-(depth) * coord_limit() <= base.x <= depth * coord_limit() && -(depth)
                * coord_limit() <= base.y <= depth * coord_limit()) by {
                match a.node_at(id.0).spec_parent() {
                    Some(p) => {
                        assert(a.live(p.0));
                        assert(a.node_at(p.0).spec_depth() + 1 == depth);
                    },
                    None => {
                        assert(depth * coord_limit() >= 0) by (nonlinear_arith)
                            requires
                                depth >= 0,
                        ;
                    },
                }
            }
            assert((depth + 1) * coord_limit() == depth * coord_limit() + coord_limit())
                by (nonlinear_arith);
            assert(depth * coord_limit() + coord_limit() < i64::MAX) by {
                assert(depth < 0x4000_0000);
                assert(depth * coord_limit() <= 0x4000_0000 * coord_limit()) by (nonlinear_arith)
                    requires
                        depth < 0x4000_0000,
                ;
            }
        }
        let world = Vec2 { x: base.x + local.x, y: base.y + local.y };
        let node_mut = self.nodes.get_mut(&id.0).unwrap();
        let st = node_mut.state();
        node_mut.set_world_value(world);
        node_mut.reset_local_flag();
        node_mut.set_state_value(crate::node::NodeState {
            constrained: st.constrained,
            built: st.built,
            positioned: true,
        });
        proof {
            assert forall|i: int|
                0 <= i < a.nodes.slot_count() implies (#[trigger] self.nodes.value_of(i) is Some
                <==> a.nodes.value_of(i) is Some) by {
                if i != id.0.index as int {
                    assert(self.nodes.version_of(i) == a.nodes.version_of(i));
                }
            }
            crate::sparse_map::lemma_wf_same_shape(a.nodes, self.nodes);
            assert forall|q: Key| #[trigger] a.live(q) == self.live(q) by {
                if q.index < a.nodes.slot_count() && q.index != id.0.index {
                    assert(self.nodes.version_of(q.index as int) == a.nodes.version_of(
                        q.index as int,
                    ));
                }
            }
            assert forall|q: Key|
                a.live(q) && q != id.0 implies #[trigger] self.node_at(q) == a.node_at(q) by {
                if q.index != id.0.index {
                    assert(self.nodes.version_of(q.index as int) == a.nodes.version_of(
                        q.index as int,
                    ));
                } else if q != id.0 {
                    assert(q.version == a.nodes.version_of(q.index as int));
                    assert(id.0.version == a.nodes.version_of(id.0.index as int));
                }
            }
            lemma_frame_world_flag(a, *self, id.0);
            assert(self.law(id.0));
        }
    }
}


impl Rectree {
    /// Phase two of the layout pass: consumes the build set bottom-up,
    /// deepest entries first. Each popped live node is rebuilt by its
    /// solver (committing reported child translations), and a parent whose
    /// child's size changed is re-enqueued for rebuild and repositioning.
    /// Afterwards every node that entered constrained-and-queued is
    /// constrained and built.
    #[verifier::rlimit(100)]
    #[verifier::spinoff_prover]
    fn run_phase_build<W: crate::layout::LayoutWorld>(
        &mut self,
        world: &W,
        build: &mut DepthSet,
        trans: &mut DepthSet,
    )
        requires
            old(self).wf(),
            old(self).trans_ok(),
            old(build).wf(),
            old(trans).wf(),
        ensures
            final (self).wf(),
            final (self).trans_ok(),
            final (build).view().len() == 0,
            final (trans).wf(),
            final (build).wf(),
            final (self).sched() == old(self).sched(),
            final (self).roots() == old(self).roots(),
            final (self).slot_count() == old(self).slot_count(),
            forall|k: Key| #[trigger] final (self).live(k) == old(self).live(k),
            forall|k: Key|
                old(self).live(k) ==> #[trigger] final (self).node_at(k).spec_parent() == old(
                    self,
                ).node_at(k).spec_parent() && final (self).node_at(k).spec_children() == old(
                    self,
                ).node_at(k).spec_children() && final (self).node_at(k).spec_depth() == old(
                    self,
                ).node_at(k).spec_depth(),
            forall|e: DepthNode|
                old(self).muts().contains(e) ==> #[trigger] final (self).muts().contains(e),
            forall|e: DepthNode|
                old(trans).view().contains(e) ==> #[trigger] final (trans).view().contains(e),
            forall|e: DepthNode|
                old(self).entry_queued(e, old(build).view()) ==> final (self).live(e.id.0)
                    ==> #[trigger] final (self).node_at(e.id.0).spec_state().constrained && final (
                self).node_at(e.id.0).spec_state().built,
            old(build).view().len() == 0 ==> *final (self) == *old(self) && *final (trans)
                == *old(trans),
    {
        let ghost a = *old(self);
        proof {
            lemma_weight_nonneg(build.view());
        }
        #[verifier::loop_isolation(false)]
        while build.len() > 0
            invariant
                self.wf(),
                self.trans_ok(),
                build.wf(),
                trans.wf(),
                self.sched() == a.sched(),
                self.roots() == a.roots(),
                self.slot_count() == a.slot_count(),
                forall|k: Key| #[trigger] self.live(k) == a.live(k),
                forall|k: Key|
                    a.live(k) ==> #[trigger] self.node_at(k).spec_parent() == a.node_at(
                        k,
                    ).spec_parent() && self.node_at(k).spec_children() == a.node_at(
                        k,
                    ).spec_children() && self.node_at(k).spec_depth() == a.node_at(
                        k,
                    ).spec_depth(),
                forall|e: DepthNode|
                    a.muts().contains(e) ==> #[trigger] self.muts().contains(e),
                forall|e: DepthNode|
                    old(trans).view().contains(e) ==> #[trigger] trans.view().contains(e),
                forall|e: DepthNode|
                    a.entry_queued(e, old(build).view()) ==> #[trigger] self.entry_queued(
                        e,
                        build.view(),
                    ),
                set_weight(build.view()) >= 0,
                old(build).view().len() == 0 ==> *self == a && *trans == *old(trans)
                    && build.view().len() == 0,
            decreases set_weight(build.view()),
        {
            let ghost bpre_pop = build.view();
            let ghost pre_iter = *self;
            let ghost mut requeued: Option<(NodeId, DepthNode)> = None;
            let e = build.pop_last().unwrap();
            proof {
                lemma_weight_nonneg(build.view());
                vstd::arithmetic::power2::lemma_pow2_pos(e.depth as nat);
                assert(set_weight(bpre_pop) == vstd::arithmetic::power2::pow2(
                    e.depth as nat,
                ) as int + set_weight(build.view()));
                assert forall|e2: DepthNode|
                    bpre_pop.contains(e2) && e2 != e implies #[trigger] build.view().contains(
                    e2,
                ) by {
                    let q = choose|q: int| 0 <= q < bpre_pop.len() && bpre_pop[q] == e2;
                    assert(q < bpre_pop.len() - 1);
                    assert(build.view()[q] == e2);
                }
            }
            if !self.nodes.contains(&e.id.0) {
                proof {
                    lemma_queue_step(a, *self, old(build).view(), bpre_pop, build.view(), e);
                }
                continue ;
            }
            if self.nodes.get(&e.id.0).unwrap().depth() != e.depth {
                // A stale entry whose slot was reused at another depth.
                proof {
                    lemma_queue_step(a, *self, old(build).view(), bpre_pop, build.view(), e);
                }
                continue ;
            }
            // The solver reads the tree (children carry their final sizes,
            // since consumption is deepest-first) and reports child
            // translations through the positioner.
            let mut positioner = crate::layout::Positioner::new();
            let size = {
                let node_ref = self.nodes.get(&e.id.0).unwrap();
                let solver = world.get_solver(&e.id);
                solver.build(node_ref, self, &mut positioner)
            };
            let ghost before_apply = *self;
            self.apply_positions(&positioner);
            proof {
                assert(self.live(e.id.0));
            }
            let old_size = self.nodes.get(&e.id.0).unwrap().size();
            let changed = old_size.width != size.width || old_size.height != size.height;
            {
                let nref = self.nodes.get(&e.id.0).unwrap();
                let st = nref.state();
                let cst = nref.constraint();
                self.soft_update(
                    e.id,
                    crate::node::NodeState {
                        constrained: st.constrained,
                        built: true,
                        positioned: st.positioned,
                    },
                    cst,
                    size,
                );
            }
            if changed {
                // The parent must rebuild around the new size, unless it is
                // already queued.
                let parent = self.nodes.get(&e.id.0).unwrap().parent();
                match parent {
                    Some(p) => {
                        proof {
                            assert(self.live(e.id.0));
                            assert(self.live(p.0));
                        }
                        let pnode = self.nodes.get(&p.0).unwrap();
                        let pdepth = pnode.depth();
                        let pbuilt = pnode.state().built;
                        if pbuilt {
                            {
                                let pref = self.nodes.get(&p.0).unwrap();
                                let pst = pref.state();
                                let pcst = pref.constraint();
                                let psz = pref.size();
                                self.soft_update(
                                    p,
                                    crate::node::NodeState {
                                        constrained: pst.constrained,
                                        built: false,
                                        positioned: false,
                                    },
                                    pcst,
                                    psz,
                                );
                            }
                            let pe = DepthNode { depth: pdepth, id: p };
                            proof {
                                assert(pdepth + 1 == self.node_at(e.id.0).spec_depth());
                            }
                            let ghost bpre = build.view();
                            let added = build.insert(pe);
                            proof {
                                requeued = Some((p, pe));
                                if added {
                                    let pp = choose|pp: int|
                                        0 <= pp <= bpre.len() && build.view()
                                            == #[trigger] bpre.insert(pp, pe);
                                    lemma_weight_insert(bpre, pp, pe);
                                    vstd::arithmetic::power2::lemma_pow2_strictly_increases(
                                        pdepth as nat,
                                        e.depth as nat,
                                    );
                                }
                                lemma_weight_nonneg(build.view());
                            }
                            let _ = trans.insert(pe);
                        }
                    },
                    None => {},
                }
            }
            proof {
                lemma_weight_nonneg(build.view());
                assert forall|e2: DepthNode|
                    a.entry_queued(e2, old(build).view()) implies #[trigger] self.entry_queued(
                    e2,
                    build.view(),
                ) by {
                    assert(pre_iter.entry_queued(e2, bpre_pop));
                    if self.live(e2.id.0) {
                        assert(pre_iter.live(e2.id.0));
                        if e2.id.0 == e.id.0 {
                            // This very node was just rebuilt.
                            assert(self.node_at(e2.id.0).spec_state().built);
                            assert(self.node_at(e2.id.0).spec_state().constrained
                                == pre_iter.node_at(e2.id.0).spec_state().constrained);
                        } else if requeued is Some && e2.id.0 == requeued->Some_0.0.0 {
                            // The parent was cleared and re-queued with its
                            // own depth.
                            let p = requeued->Some_0.0;
                            let pe = requeued->Some_0.1;
                            assert(NodeId(e2.id.0) == p) by {
                                assert(NodeId(e2.id.0).pair() == p.pair());
                            }
                            assert(e2.id == p) by {
                                assert(e2.id.pair() == p.pair());
                            }
                            assert(build.view().contains(pe));
                            assert(pe == (DepthNode {
                                depth: self.node_at(e2.id.0).spec_depth(),
                                id: e2.id,
                            }));
                        } else {
                            // Untouched by the rebuild; the positioner may
                            // have moved it, but its bits and depth stand.
                            assert(self.node_at(e2.id.0).spec_state() == pre_iter.node_at(
                                e2.id.0,
                            ).spec_state() && self.node_at(e2.id.0).spec_depth()
                                == pre_iter.node_at(e2.id.0).spec_depth()) by {
                                assert(before_apply.node_at(e2.id.0).spec_state()
                                    == pre_iter.node_at(e2.id.0).spec_state());
                            }
                            if !self.node_at(e2.id.0).spec_state().built {
                                let tracked_e = DepthNode {
                                    depth: self.node_at(e2.id.0).spec_depth(),
                                    id: e2.id,
                                };
                                assert(bpre_pop.contains(tracked_e));
                                assert(tracked_e != e) by {
                                    if tracked_e == e {
                                        assert(e.id.pair() == e2.id.pair());
                                    }
                                }
                                assert(build.view().contains(tracked_e));
                            }
                        }
                    }
                }
            }
        }
        proof {
            assert forall|e: DepthNode|
                old(self).entry_queued(e, old(build).view()) && final (self).live(
                    e.id.0,
                ) implies #[trigger] self.node_at(e.id.0).spec_state().constrained
                && self.node_at(e.id.0).spec_state().built by {
                assert(self.entry_queued(e, build.view()));
                assert(build.view().len() == 0);
                if !self.node_at(e.id.0).spec_state().built {
                    assert(build.view().contains(
                        DepthNode { depth: self.node_at(e.id.0).spec_depth(), id: e.id },
                    ));
                    let q = choose|q: int|
                        0 <= q < build.view().len() && build.view()[q] == (DepthNode {
                            depth: self.node_at(e.id.0).spec_depth(),
                            id: e.id,
                        });
                }
            }
        }
    }
}

/// A skipped pop keeps every queued-entry obligation: the popped entry was
/// dead or tracked nothing that is still owed.
proof fn lemma_queue_step(
    a: Rectree,
    cur: Rectree,
    b0: Seq<DepthNode>,
    bpre: Seq<DepthNode>,
    bpost: Seq<DepthNode>,
    popped: DepthNode,
)
    requires
        forall|k: Key| #[trigger] cur.live(k) == a.live(k),
        forall|e2: DepthNode|
            a.entry_queued(e2, b0) ==> #[trigger] cur.entry_queued(e2, bpre),
        forall|e2: DepthNode| bpre.contains(e2) && e2 != popped ==> #[trigger] bpost.contains(e2),
        !cur.live(popped.id.0) || cur.node_at(popped.id.0).spec_depth() != popped.depth,
    ensures
        forall|e2: DepthNode|
            a.entry_queued(e2, b0) ==> #[trigger] cur.entry_queued(e2, bpost),
{
    assert forall|e2: DepthNode|
        a.entry_queued(e2, b0) implies #[trigger] cur.entry_queued(e2, bpost) by {
        assert(cur.entry_queued(e2, bpre));
        if cur.live(e2.id.0) && !cur.node_at(e2.id.0).spec_state().built {
            let tracked_e = DepthNode { depth: cur.node_at(e2.id.0).spec_depth(), id: e2.id };
            assert(bpre.contains(tracked_e));
            assert(tracked_e != popped) by {
                if tracked_e == popped {
                    assert(popped.id == e2.id);
                    assert(cur.live(popped.id.0));
                    assert(cur.node_at(popped.id.0).spec_depth() == popped.depth);
                }
            }
            assert(bpost.contains(tracked_e));
        }
    }
}

impl Rectree {
    /// Phase three of the layout pass: walks each pending region top-down,
    /// refreshing world translations and raising the positioned bit, and
    /// skips regions an earlier walk already positioned. Afterwards every
    /// listed live node is positioned.
    #[verifier::rlimit(100)]
    #[verifier::spinoff_prover]
    fn run_phase_position(&mut self, trans: &DepthSet)
        requires
            old(self).wf(),
            old(self).trans_ok(),
            trans.wf(),
        ensures
            final (self).wf(),
            final (self).trans_ok(),
            final (self).sched() == old(self).sched(),
            final (self).roots() == old(self).roots(),
            final (self).slot_count() == old(self).slot_count(),
            forall|k: Key| #[trigger] final (self).live(k) == old(self).live(k),
            forall|k: Key|
                old(self).live(k) ==> #[trigger] final (self).node_at(k).spec_parent() == old(
                    self,
                ).node_at(k).spec_parent() && final (self).node_at(k).spec_children() == old(
                    self,
                ).node_at(k).spec_children() && final (self).node_at(k).spec_depth() == old(
                    self,
                ).node_at(k).spec_depth(),
            forall|e: DepthNode|
                old(self).muts().contains(e) ==> #[trigger] final (self).muts().contains(e),
            forall|k: Key|
                old(self).live(k) ==> #[trigger] final (self).node_at(k).spec_state().constrained
                    == old(self).node_at(k).spec_state().constrained && final (self).node_at(
                    k,
                ).spec_state().built == old(self).node_at(k).spec_state().built && (old(
                    self,
                ).node_at(k).spec_state().positioned ==> final (self).node_at(
                    k,
                ).spec_state().positioned),
            forall|t: int|
                0 <= t < trans.view().len() ==> final (self).live(
                    (#[trigger] trans.view()[t]).id.0,
                ) ==> final (self).node_at(trans.view()[t].id.0).spec_state().positioned,
            trans.view().len() == 0 ==> *final (self) == *old(self),
    {
        let ghost a = *old(self);
        let n_trans = trans.len();
        let mut j: usize = 0;
        #[verifier::loop_isolation(false)]
        while j < n_trans
            invariant
                self.wf(),
                self.trans_ok(),
                self.sched() == a.sched(),
                self.roots() == a.roots(),
                self.slot_count() == a.slot_count(),
                forall|k: Key| #[trigger] self.live(k) == a.live(k),
                forall|k: Key|
                    a.live(k) ==> #[trigger] self.node_at(k).spec_parent() == a.node_at(
                        k,
                    ).spec_parent() && self.node_at(k).spec_children() == a.node_at(
                        k,
                    ).spec_children() && self.node_at(k).spec_depth() == a.node_at(
                        k,
                    ).spec_depth(),
                forall|e: DepthNode|
                    a.muts().contains(e) ==> #[trigger] self.muts().contains(e),
                forall|k: Key|
                    a.live(k) ==> #[trigger] self.node_at(k).spec_state().constrained
                        == a.node_at(k).spec_state().constrained && self.node_at(
                        k,
                    ).spec_state().built == a.node_at(k).spec_state().built && (a.node_at(
                        k,
                    ).spec_state().positioned ==> self.node_at(k).spec_state().positioned),
                forall|t: int|
                    0 <= t < j ==> self.live((#[trigger] trans.view()[t]).id.0)
                        ==> self.node_at(trans.view()[t].id.0).spec_state().positioned,
                0 <= j <= n_trans,
                n_trans == trans.view().len(),
                n_trans == 0 ==> *self == a,
            decreases n_trans - j,
        {
            let e = trans.get_at(j);
            if self.nodes.contains(&e.id.0) {
                let positioned = self.nodes.get(&e.id.0).unwrap().state().positioned;
                if !positioned {
                    let par = self.nodes.get(&e.id.0).unwrap().parent();
                    let base = match par {
                        Some(p) => {
                            proof {
                                assert(self.live(e.id.0));
                                assert(self.live(p.0));
                            }
                            self.nodes.get(&p.0).unwrap().world_translation()
                        },
                        None => Vec2 { x: 0, y: 0 },
                    };
                    let ghost pre_walk = *self;
                    self.propagate_translation(e.id, base);
                    proof {
                        lemma_trans_ok_after_walk(pre_walk, *self, e.id.0);
                        assert(pre_walk.in_subtree(e.id.0, e.id.0));
                    }
                }
            }
            j = j + 1;
        }
    }
}


impl Rectree {
    /// Executes the incremental layout pass using the provided
    /// [`LayoutWorld`].
    ///
    /// Constraints are propagated top-down from the scheduled seeds (a
    /// subtree is skipped as soon as a child's stored constraint already
    /// matches); sizes are rebuilt bottom-up, deepest first, re-enqueuing a
    /// parent whose child's size changed; world translations are refreshed
    /// over every touched region and over everything else still pending.
    /// Afterwards nothing is scheduled or pending, every scheduled node
    /// carries all three freshness bits, the world-sum law holds at every
    /// live node, and a call with nothing scheduled and nothing pending
    /// changes nothing at all.
    #[verifier::rlimit(100)]
    #[verifier::spinoff_prover]
    pub fn layout<W: crate::layout::LayoutWorld>(&mut self, world: &W)
        requires
            old(self).wf(),
            old(self).trans_ok(),
        ensures
            final (self).wf(),
            final (self).trans_ok(),
            final (self).sched().len() == 0,
            final (self).muts().len() == 0,
            final (self).roots() == old(self).roots(),
            final (self).slot_count() == old(self).slot_count(),
            forall|k: Key| #[trigger] final (self).live(k) == old(self).live(k),
            forall|k: Key|
                old(self).live(k) ==> #[trigger] final (self).node_at(k).spec_parent() == old(
                    self,
                ).node_at(k).spec_parent() && final (self).node_at(k).spec_children() == old(
                    self,
                ).node_at(k).spec_children() && final (self).node_at(k).spec_depth() == old(
                    self,
                ).node_at(k).spec_depth(),
            forall|k: Key| final (self).live(k) ==> #[trigger] final (self).law(k),
            // Convergence: every scheduled node that survives the pass ends
            // constrained, built and positioned.
            forall|e: DepthNode|
                old(self).sched().contains(e) && final (self).live(e.id.0) ==> #[trigger] final (
                self).node_at(e.id.0).spec_state() == (crate::node::NodeState {
                    constrained: true,
                    built: true,
                    positioned: true,
                }),
            old(self).sched().len() == 0 && old(self).muts().len() == 0 ==> *final (self) == *old(
                self,
            ),
    {
        if self.scheduled_relayout.is_empty() && self.mutated_translations.is_empty() {
            // Nothing scheduled and nothing pending: the tree is already
            // converged, and stays bit-identical.
            proof {
                assert forall|k: Key| self.live(k) implies #[trigger] self.law(k) by {}
            }
            return ;
        }
        let mut scheduled = DepthSet::new();
        core::mem::swap(&mut scheduled, &mut self.scheduled_relayout);
        proof {
            lemma_wf_worklists(*old(self), *self);
            lemma_trans_ok_worklists(*old(self), *self);
        }
        let mut build = DepthSet::new();
        let mut trans = DepthSet::new();
        let ghost s0 = *self;
        self.run_phase_constrain(world, &scheduled, &mut build, &mut trans);
        let ghost s1 = *self;
        let ghost b1 = build.view();
        self.run_phase_build(world, &mut build, &mut trans);
        let ghost s2 = *self;
        self.run_phase_position(&trans);
        let ghost s3 = *self;
        self.update_translations();
        proof {
            assert forall|e: DepthNode|
                old(self).sched().contains(e) && final (self).live(e.id.0) implies #[trigger] self.node_at(
                e.id.0,
            ).spec_state() == (crate::node::NodeState {
                constrained: true,
                built: true,
                positioned: true,
            }) by {
                let q = choose|q: int|
                    0 <= q < scheduled.view().len() && scheduled.view()[q] == e;
                assert(s1.entry_queued(e, b1));
                assert(s2.node_at(e.id.0).spec_state().constrained && s2.node_at(
                    e.id.0,
                ).spec_state().built);
                assert(trans.view().contains(e));
                let q2 = choose|q2: int| 0 <= q2 < trans.view().len() && trans.view()[q2] == e;
                assert(s3.node_at(e.id.0).spec_state().positioned);
                assert(s3.node_at(e.id.0).spec_state().constrained && s3.node_at(
                    e.id.0,
                ).spec_state().built);
                assert(self.node_at(e.id.0).spec_state().positioned);
            }
        }
    }
}

} // verus!
