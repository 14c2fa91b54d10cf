//! Layout execution: constraints, the solver interface, and the three-phase
//! incremental pass.

use crate::geom::{Size, Vec2};
use crate::node::{coord_limit, RectNode};
use crate::tree::{NodeId, Rectree};
use vstd::prelude::*;

verus! {

/// Size constraints applied to a node during layout.
///
/// `Some` fixes the corresponding dimension to an explicit size, `None`
/// leaves it flexible, to be determined by layout.
#[derive(Debug, Clone, Copy, PartialEq, Eq, Hash, Structural)]
pub struct Constraint {
    /// Fixed width, or `None` if flexible.
    pub width: Option<i64>,
    /// Fixed height, or `None` if flexible.
    pub height: Option<i64>,
}

impl Constraint {
    /// What `flexible` returns.
    pub open spec fn flexible_spec() -> Constraint {
        Constraint { width: None, height: None }
    }

    /// A constraint with both width and height fixed.
    pub fn fixed(width: i64, height: i64) -> (r: Self)
        ensures
            r == (Constraint { width: Some(width), height: Some(height) }),
    {
        Constraint { width: Some(width), height: Some(height) }
    }

    /// A fixed width with a flexible height.
    pub fn fixed_width(width: i64) -> (r: Self)
        ensures
            r == (Constraint { width: Some(width), height: None::<i64> }),
    {
        Constraint { width: Some(width), height: None }
    }

    /// A fixed height with a flexible width.
    pub fn fixed_height(height: i64) -> (r: Self)
        ensures
            r == (Constraint { width: None::<i64>, height: Some(height) }),
    {
        Constraint { width: None, height: Some(height) }
    }

    /// A fully flexible constraint.
    pub fn flexible() -> (r: Self)
        ensures
            r == Self::flexible_spec(),
    {
        Constraint { width: None, height: None }
    }

    /// A constraint with both dimensions fixed.
    pub fn from_both(width: i64, height: i64) -> (r: Self)
        ensures
            r == (Constraint { width: Some(width), height: Some(height) }),
    {
        Self::fixed(width, height)
    }

    /// A fixed width with a flexible height.
    pub fn from_width(width: i64) -> (r: Self)
        ensures
            r == (Constraint { width: Some(width), height: None::<i64> }),
    {
        Self::fixed_width(width)
    }

    /// A fixed height with a flexible width.
    pub fn from_height(height: i64) -> (r: Self)
        ensures
            r == (Constraint { width: None::<i64>, height: Some(height) }),
    {
        Self::fixed_height(height)
    }

    /// A fully flexible constraint.
    pub fn from_none() -> (r: Self)
        ensures
            r == Self::flexible_spec(),
    {
        Self::flexible()
    }

    /// Structural equality of two constraints.
    pub fn same(&self, other: &Constraint) -> (r: bool)
        ensures
            r == (*self == *other),
    {
        let w = match (self.width, other.width) {
            (None, None) => true,
            (Some(a), Some(b)) => a == b,
            _ => false,
        };
        let h = match (self.height, other.height) {
            (None, None) => true,
            (Some(a), Some(b)) => a == b,
            _ => false,
        };
        w && h
    }
}

/// Collects child translations produced during layout construction; they
/// are committed to the tree after each solver `build` call, last writer
/// winning.
pub struct Positioner {
    pub(crate) new_translations: Vec<(NodeId, Vec2)>,
}

impl Positioner {
    /// The recorded `(node, translation)` pairs, oldest first.
    pub closed spec fn view(self) -> Seq<(NodeId, Vec2)> {
        self.new_translations@
    }

    /// Every recorded translation is in the safe coordinate range.
    pub open spec fn wf(self) -> bool {
        forall|t: int|
            0 <= t < self.view().len() ==> -coord_limit() <= (#[trigger] self.view()[t]).1.x
                <= coord_limit() && -coord_limit() <= self.view()[t].1.y <= coord_limit()
    }

    /// An empty accumulator.
    pub fn new() -> (r: Self)
        ensures
            r.wf(),
            r.view().len() == 0,
    {
        Positioner { new_translations: Vec::new() }
    }

    /// The number of recorded entries.
    pub fn len(&self) -> (r: usize)
        ensures
            r == self.view().len(),
    {
        self.new_translations.len()
    }

    /// Reads one recorded entry.
    pub fn entry_at(&self, i: usize) -> (r: (NodeId, Vec2))
        requires
            i < self.view().len(),
        ensures
            r == self.view()[i as int],
    {
        self.new_translations[i]
    }

    /// Records the local translation for a node; applied later as part of
    /// the layout commit, after the solver's `build` returns.
    pub fn set(&mut self, id: NodeId, translation: Vec2)
        requires
            old(self).wf(),
            -coord_limit() <= translation.x <= coord_limit(),
            -coord_limit() <= translation.y <= coord_limit(),
        ensures
            final (self).wf(),
            final (self).view() == old(self).view().push((id, translation)),
    {
        self.new_translations.push((id, translation));
    }
}

/// Defines how a node participates in layout resolution: constraint
/// propagation from parent to children (top-down), and size computation
/// with child positioning (bottom-up). Implementations are supplied by the
/// caller and are not part of the verified core; the engine makes no
/// assumption about what they return.
pub trait LayoutSolver {
    /// Computes the constraint to be applied to this node's children, from
    /// the constraint the parent imposed on this node.
    fn constraint(&self, parent_constraint: Constraint) -> Constraint;

    /// Builds the layout for a node and returns its resolved size; child
    /// translations are reported through the positioner.
    fn build(&self, node: &RectNode, tree: &Rectree, positioner: &mut Positioner) -> Size;
}

/// Provides the [`LayoutSolver`] responsible for each node: the bridge
/// between the tree and the caller's layout logic.
pub trait LayoutWorld {
    /// The solver type this world hands out.
    type Solver: LayoutSolver;

    /// Returns the solver responsible for computing layout for the node.
    fn get_solver(&self, id: &NodeId) -> &Self::Solver;
}


} // verus!
