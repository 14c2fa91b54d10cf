//! The per-node record of the layout tree.

use crate::geom::{Rect, Size, Vec2};
use crate::layout::Constraint;
use crate::mut_detect::MutDetect;
use crate::node_set::NodeSet;
use crate::tree::NodeId;
use vstd::prelude::*;

verus! {

/// The largest magnitude a local translation component may have; it keeps
/// world translations representable along arbitrarily deep chains.
pub open spec fn coord_limit() -> int {
    0x8000_0000
}

/// The three per-node freshness bits of the layout pass.
#[derive(Debug, Clone, Copy, PartialEq, Eq, Structural)]
pub struct NodeState {
    pub constrained: bool,
    pub built: bool,
    pub positioned: bool,
}

impl NodeState {
    /// All three bits lowered: the node needs the full pass.
    pub fn reset() -> (r: NodeState)
        ensures
            r == (NodeState { constrained: false, built: false, positioned: false }),
    {
        NodeState { constrained: false, built: false, positioned: false }
    }
}

/// An axis-aligned rectangle in the layout tree.
///
/// The rectangle is defined in local space by a translation and a size:
/// `local_translation` is the top-left corner relative to the parent. The
/// final position in world space is stored in `world_translation` after
/// layout resolution.
pub struct RectNode {
    local_translation: MutDetect<Vec2>,
    size: Size,
    parent_constraint: Constraint,
    pub(crate) world_translation: Vec2,
    pub(crate) parent: Option<NodeId>,
    pub(crate) children: NodeSet,
    /// How deep in the hierarchy this node is (0 for root nodes).
    pub(crate) depth: u32,
    pub(crate) state: NodeState,
}

impl RectNode {
    /// The local translation.
    pub closed spec fn spec_local(self) -> Vec2 {
        self.local_translation.value()
    }

    /// Whether the local translation was edited since the last propagation.
    pub closed spec fn spec_local_mutated(self) -> bool {
        self.local_translation.spec_mutated()
    }

    /// The resolved size.
    pub closed spec fn spec_size(self) -> Size {
        self.size
    }

    /// The constraint last imposed by the parent.
    pub closed spec fn spec_constraint(self) -> Constraint {
        self.parent_constraint
    }

    /// The world translation written by the last propagation.
    pub closed spec fn spec_world(self) -> Vec2 {
        self.world_translation
    }

    /// The parent handle.
    pub closed spec fn spec_parent(self) -> Option<NodeId> {
        self.parent
    }

    /// The child handles, as pairs.
    pub closed spec fn spec_children(self) -> Set<(usize, u32)> {
        crate::node_set::node_set_contents(self.children)
    }

    /// The node's depth.
    pub closed spec fn spec_depth(self) -> u32 {
        self.depth
    }

    /// The node's freshness bits.
    pub closed spec fn spec_state(self) -> NodeState {
        self.state
    }

    /// A local translation small enough for safe world-space accumulation.
    pub open spec fn local_in_range(self) -> bool {
        -coord_limit() <= self.spec_local().x <= coord_limit() && -coord_limit()
            <= self.spec_local().y <= coord_limit()
    }

    /// Creates a node at the origin with zero size and no parent.
    pub fn new() -> (r: Self)
        ensures
            r.spec_local() == (Vec2 { x: 0, y: 0 }),
            !r.spec_local_mutated(),
            r.spec_size() == (Size { width: 0, height: 0 }),
            r.spec_constraint() == Constraint::flexible_spec(),
            r.spec_world() == (Vec2 { x: 0, y: 0 }),
            r.spec_parent() is None,
            r.spec_children() =~= Set::<(usize, u32)>::empty(),
            r.spec_children().finite(),
            r.spec_depth() == 0,
            r.spec_state() == (NodeState { constrained: false, built: false, positioned: false }),
    {
        RectNode {
            local_translation: MutDetect::new(Vec2 { x: 0, y: 0 }),
            size: Size { width: 0, height: 0 },
            parent_constraint: Constraint { width: None, height: None },
            world_translation: Vec2 { x: 0, y: 0 },
            parent: None,
            children: NodeSet::new(),
            depth: 0,
            state: NodeState { constrained: false, built: false, positioned: false },
        }
    }

    /// A node at the given local translation.
    pub fn from_translation(translation: Vec2) -> (r: Self)
        requires
            -coord_limit() <= translation.x <= coord_limit(),
            -coord_limit() <= translation.y <= coord_limit(),
        ensures
            r.spec_local() == translation,
            r.spec_parent() is None,
            r.spec_depth() == 0,
            r.spec_size() == (Size { width: 0, height: 0 }),
            r.spec_world() == (Vec2 { x: 0, y: 0 }),
            r.spec_children() =~= Set::<(usize, u32)>::empty(),
            r.spec_children().finite(),
    {
        Self::new().with_translation(translation)
    }

    /// A node of the given size.
    pub fn from_size(size: Size) -> (r: Self)
        ensures
            r.spec_size() == size,
            r.spec_local() == (Vec2 { x: 0, y: 0 }),
            r.spec_parent() is None,
            r.spec_depth() == 0,
            r.spec_world() == (Vec2 { x: 0, y: 0 }),
            r.spec_children() =~= Set::<(usize, u32)>::empty(),
            r.spec_children().finite(),
    {
        Self::new().with_size(size)
    }

    /// A node with both translation and size set.
    pub fn from_translation_size(translation: Vec2, size: Size) -> (r: Self)
        requires
            -coord_limit() <= translation.x <= coord_limit(),
            -coord_limit() <= translation.y <= coord_limit(),
        ensures
            r.spec_local() == translation,
            r.spec_size() == size,
            r.spec_parent() is None,
            r.spec_depth() == 0,
            r.spec_world() == (Vec2 { x: 0, y: 0 }),
            r.spec_children() =~= Set::<(usize, u32)>::empty(),
            r.spec_children().finite(),
    {
        Self::new().with_translation(translation).with_size(size)
    }

    /// A node whose translation and size are taken from a rectangle's
    /// origin and extent.
    pub fn from_rect(rect: Rect) -> (r: Self)
        requires
            -coord_limit() <= rect.x0 <= coord_limit(),
            -coord_limit() <= rect.y0 <= coord_limit(),
            rect.x1 - rect.x0 <= i64::MAX,
            rect.y1 - rect.y0 <= i64::MAX,
            crate::geom::rect_wf(rect),
        ensures
            r.spec_local() == (Vec2 { x: rect.x0, y: rect.y0 }),
            r.spec_size().width == rect.x1 - rect.x0,
            r.spec_size().height == rect.y1 - rect.y0,
            r.spec_parent() is None,
            r.spec_depth() == 0,
            r.spec_world() == (Vec2 { x: 0, y: 0 }),
            r.spec_children() =~= Set::<(usize, u32)>::empty(),
            r.spec_children().finite(),
    {
        Self::new().with_translation(Vec2 { x: rect.x0, y: rect.y0 }).with_size(
            Size { width: rect.x1 - rect.x0, height: rect.y1 - rect.y0 },
        )
    }

    /// Sets the local translation.
    pub fn with_translation(self, translation: Vec2) -> (r: Self)
        requires
            -coord_limit() <= translation.x <= coord_limit(),
            -coord_limit() <= translation.y <= coord_limit(),
        ensures
            r.spec_local() == translation,
            r.spec_local_mutated(),
            r.spec_size() == self.spec_size(),
            r.spec_constraint() == self.spec_constraint(),
            r.spec_world() == self.spec_world(),
            r.spec_parent() == self.spec_parent(),
            r.spec_children() == self.spec_children(),
            r.spec_depth() == self.spec_depth(),
            r.spec_state() == self.spec_state(),
    {
        let mut node = self;
        node.local_translation.set(translation);
        node
    }

    /// Sets the size.
    pub fn with_size(self, size: Size) -> (r: Self)
        ensures
            r.spec_size() == size,
            r.spec_local() == self.spec_local(),
            r.spec_local_mutated() == self.spec_local_mutated(),
            r.spec_constraint() == self.spec_constraint(),
            r.spec_world() == self.spec_world(),
            r.spec_parent() == self.spec_parent(),
            r.spec_children() == self.spec_children(),
            r.spec_depth() == self.spec_depth(),
            r.spec_state() == self.spec_state(),
    {
        let mut node = self;
        node.size = size;
        node
    }

    /// Sets the parent the node will be linked under at insertion.
    pub fn with_parent(self, parent: NodeId) -> (r: Self)
        ensures
            r.spec_parent() == Some(parent),
            r.spec_local() == self.spec_local(),
            r.spec_local_mutated() == self.spec_local_mutated(),
            r.spec_size() == self.spec_size(),
            r.spec_constraint() == self.spec_constraint(),
            r.spec_world() == self.spec_world(),
            r.spec_children() == self.spec_children(),
            r.spec_depth() == self.spec_depth(),
            r.spec_state() == self.spec_state(),
    {
        let mut node = self;
        node.parent = Some(parent);
        node
    }

    /// The local translation.
    pub fn local_translation(&self) -> (r: Vec2)
        ensures
            r == self.spec_local(),
    {
        *self.local_translation.get()
    }

    /// Overwrites the local translation and marks it mutated, so that the
    /// next translation propagation sees this node.
    pub fn set_local_translation(&mut self, translation: Vec2)
        requires
            -coord_limit() <= translation.x <= coord_limit(),
            -coord_limit() <= translation.y <= coord_limit(),
        ensures
            final (self).spec_local() == translation,
            final (self).spec_local_mutated(),
            final (self).spec_size() == old(self).spec_size(),
            final (self).spec_constraint() == old(self).spec_constraint(),
            final (self).spec_world() == old(self).spec_world(),
            final (self).spec_parent() == old(self).spec_parent(),
            final (self).spec_children() == old(self).spec_children(),
            final (self).spec_depth() == old(self).spec_depth(),
            final (self).spec_state() == old(self).spec_state(),
    {
        self.local_translation.set(translation);
    }

    /// The resolved size.
    pub fn size(&self) -> (r: Size)
        ensures
            r == self.spec_size(),
    {
        self.size
    }

    /// Overwrites the resolved size.
    pub fn set_size(&mut self, size: Size)
        ensures
            final (self).spec_size() == size,
            final (self).spec_local() == old(self).spec_local(),
            final (self).spec_local_mutated() == old(self).spec_local_mutated(),
            final (self).spec_constraint() == old(self).spec_constraint(),
            final (self).spec_world() == old(self).spec_world(),
            final (self).spec_parent() == old(self).spec_parent(),
            final (self).spec_children() == old(self).spec_children(),
            final (self).spec_depth() == old(self).spec_depth(),
            final (self).spec_state() == old(self).spec_state(),
    {
        self.size = size;
    }

    /// The constraint last imposed by the parent.
    pub fn constraint(&self) -> (r: Constraint)
        ensures
            r == self.spec_constraint(),
    {
        self.parent_constraint
    }

    /// The world-space translation computed by the last propagation.
    pub fn world_translation(&self) -> (r: Vec2)
        ensures
            r == self.spec_world(),
    {
        self.world_translation
    }

    /// The parent handle, or `None` for a root.
    pub fn parent(&self) -> (r: Option<NodeId>)
        ensures
            r == self.spec_parent(),
    {
        self.parent
    }

    /// The set of child handles.
    pub fn children(&self) -> (r: &NodeSet)
        ensures
            crate::node_set::node_set_contents(*r) == self.spec_children(),
    {
        &self.children
    }

    /// Whether the local translation changed since the last propagation.
    pub(crate) fn local_flag(&self) -> (r: bool)
        ensures
            r == self.spec_local_mutated(),
    {
        self.local_translation.mutated()
    }

    /// The freshness bits.
    pub(crate) fn state(&self) -> (r: NodeState)
        ensures
            r == self.spec_state(),
    {
        self.state
    }

    /// How deep in the hierarchy this node is (0 for roots).
    pub fn depth(&self) -> (r: u32)
        ensures
            r == self.spec_depth(),
    {
        self.depth
    }

    /// The node's world-space rectangle: its world translation extended by
    /// its size.
    pub fn world_rect(&self) -> (r: Rect)
        requires
            self.spec_world().x + self.spec_size().width <= i64::MAX,
            self.spec_world().y + self.spec_size().height <= i64::MAX,
            self.spec_world().x + self.spec_size().width >= i64::MIN,
            self.spec_world().y + self.spec_size().height >= i64::MIN,
        ensures
            r.x0 == self.spec_world().x,
            r.y0 == self.spec_world().y,
            r.x1 == self.spec_world().x + self.spec_size().width,
            r.y1 == self.spec_world().y + self.spec_size().height,
    {
        Rect {
            x0: self.world_translation.x,
            y0: self.world_translation.y,
            x1: self.world_translation.x + self.size.width,
            y1: self.world_translation.y + self.size.height,
        }
    }
}


/// Equality of two nodes on everything except the child set.
pub open spec fn same_but_children(a: RectNode, b: RectNode) -> bool {
    a.spec_local() == b.spec_local() && a.spec_local_mutated() == b.spec_local_mutated()
        && a.spec_size() == b.spec_size() && a.spec_constraint() == b.spec_constraint()
        && a.spec_world() == b.spec_world() && a.spec_parent() == b.spec_parent() && a.spec_depth()
        == b.spec_depth() && a.spec_state() == b.spec_state()
}

impl RectNode {
    /// Keeps the current local translation but raises the mutation flag,
    /// so the next propagation revisits this node.
    pub(crate) fn mark_local_mutated(&mut self)
        ensures
            final (self).spec_local() == old(self).spec_local(),
            final (self).spec_local_mutated(),
            final (self).spec_size() == old(self).spec_size(),
            final (self).spec_constraint() == old(self).spec_constraint(),
            final (self).spec_world() == old(self).spec_world(),
            final (self).spec_parent() == old(self).spec_parent(),
            final (self).spec_children() == old(self).spec_children(),
            final (self).spec_depth() == old(self).spec_depth(),
            final (self).spec_state() == old(self).spec_state(),
    {
        let v = *self.local_translation.get();
        self.local_translation.set(v);
    }

    /// Lowers the local-translation mutation flag.
    pub(crate) fn reset_local_flag(&mut self)
        ensures
            final (self).spec_local() == old(self).spec_local(),
            !final (self).spec_local_mutated(),
            final (self).spec_size() == old(self).spec_size(),
            final (self).spec_constraint() == old(self).spec_constraint(),
            final (self).spec_world() == old(self).spec_world(),
            final (self).spec_parent() == old(self).spec_parent(),
            final (self).spec_children() == old(self).spec_children(),
            final (self).spec_depth() == old(self).spec_depth(),
            final (self).spec_state() == old(self).spec_state(),
    {
        self.local_translation.reset_mutation();
    }

    pub(crate) fn set_parent_link(&mut self, p: Option<NodeId>)
        ensures
            final (self).spec_parent() == p,
            final (self).spec_local() == old(self).spec_local(),
            final (self).spec_local_mutated() == old(self).spec_local_mutated(),
            final (self).spec_size() == old(self).spec_size(),
            final (self).spec_constraint() == old(self).spec_constraint(),
            final (self).spec_world() == old(self).spec_world(),
            final (self).spec_children() == old(self).spec_children(),
            final (self).spec_depth() == old(self).spec_depth(),
            final (self).spec_state() == old(self).spec_state(),
    {
        self.parent = p;
    }

    pub(crate) fn set_depth_value(&mut self, d: u32)
        ensures
            final (self).spec_depth() == d,
            final (self).spec_local() == old(self).spec_local(),
            final (self).spec_local_mutated() == old(self).spec_local_mutated(),
            final (self).spec_size() == old(self).spec_size(),
            final (self).spec_constraint() == old(self).spec_constraint(),
            final (self).spec_world() == old(self).spec_world(),
            final (self).spec_parent() == old(self).spec_parent(),
            final (self).spec_children() == old(self).spec_children(),
            final (self).spec_state() == old(self).spec_state(),
    {
        self.depth = d;
    }

    pub(crate) fn set_world_value(&mut self, w: Vec2)
        ensures
            final (self).spec_world() == w,
            final (self).spec_local() == old(self).spec_local(),
            final (self).spec_local_mutated() == old(self).spec_local_mutated(),
            final (self).spec_size() == old(self).spec_size(),
            final (self).spec_constraint() == old(self).spec_constraint(),
            final (self).spec_parent() == old(self).spec_parent(),
            final (self).spec_children() == old(self).spec_children(),
            final (self).spec_depth() == old(self).spec_depth(),
            final (self).spec_state() == old(self).spec_state(),
    {
        self.world_translation = w;
    }

    pub(crate) fn set_state_value(&mut self, st: NodeState)
        ensures
            final (self).spec_state() == st,
            final (self).spec_local() == old(self).spec_local(),
            final (self).spec_local_mutated() == old(self).spec_local_mutated(),
            final (self).spec_size() == old(self).spec_size(),
            final (self).spec_constraint() == old(self).spec_constraint(),
            final (self).spec_world() == old(self).spec_world(),
            final (self).spec_parent() == old(self).spec_parent(),
            final (self).spec_children() == old(self).spec_children(),
            final (self).spec_depth() == old(self).spec_depth(),
    {
        self.state = st;
    }

    pub(crate) fn set_constraint_value(&mut self, c: Constraint)
        ensures
            final (self).spec_constraint() == c,
            final (self).spec_local() == old(self).spec_local(),
            final (self).spec_local_mutated() == old(self).spec_local_mutated(),
            final (self).spec_size() == old(self).spec_size(),
            final (self).spec_world() == old(self).spec_world(),
            final (self).spec_parent() == old(self).spec_parent(),
            final (self).spec_children() == old(self).spec_children(),
            final (self).spec_depth() == old(self).spec_depth(),
            final (self).spec_state() == old(self).spec_state(),
    {
        self.parent_constraint = c;
    }

    pub(crate) fn clear_children(&mut self)
        ensures
            final (self).spec_children() =~= Set::<(usize, u32)>::empty(),
            final (self).spec_children().finite(),
            crate::node::same_but_children(*final (self), *old(self)),
    {
        self.children = crate::node_set::NodeSet::new();
    }

    pub(crate) fn add_child(&mut self, id: NodeId)
        ensures
            final (self).spec_children() == old(self).spec_children().insert(id.pair()),
            old(self).spec_children().finite() ==> final (self).spec_children().finite(),
            crate::node::same_but_children(*final (self), *old(self)),
    {
        self.children.insert(id);
    }

    pub(crate) fn remove_child(&mut self, id: &NodeId)
        ensures
            final (self).spec_children() == old(self).spec_children().remove(id.pair()),
            old(self).spec_children().finite() ==> final (self).spec_children().finite(),
            crate::node::same_but_children(*final (self), *old(self)),
    {
        self.children.remove(id);
    }

    /// The set of child handles, as a vector in no particular order.
    pub fn child_ids(&self) -> (r: Vec<NodeId>)
        ensures
            crate::node_set::pairs_of(r@).no_duplicates(),
            forall|t: int| 0 <= t < r@.len() ==> self.spec_children().contains(
                #[trigger] crate::node_set::pairs_of(r@)[t],
            ),
            forall|p: (usize, u32)|
                self.spec_children().contains(p) ==> #[trigger] crate::node_set::pairs_of(
                    r@,
                ).contains(p),
    {
        self.children.to_ids()
    }
}

} // verus!
