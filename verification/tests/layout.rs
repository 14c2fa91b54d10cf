use rectree::geom::{Size, Vec2};
use rectree::layout::{Constraint, LayoutSolver, LayoutWorld, Positioner};
use rectree::node::RectNode;
use rectree::tree::{NodeId, Rectree};
use std::cell::Cell;

/// A solver that forwards constraints unchanged, keeps every node's size,
/// optionally repositions chosen children, and counts its calls.
struct TestSolver {
    constraint_calls: Cell<u32>,
    build_calls: Cell<u32>,
    moves: Vec<(NodeId, Vec2)>,
    forced_size: Option<(NodeId, Size)>,
}

impl TestSolver {
    fn identity() -> TestSolver {
        TestSolver {
            constraint_calls: Cell::new(0),
            build_calls: Cell::new(0),
            moves: Vec::new(),
            forced_size: None,
        }
    }
}

impl LayoutSolver for TestSolver {
    fn constraint(&self, parent_constraint: Constraint) -> Constraint {
        self.constraint_calls.set(self.constraint_calls.get() + 1);
        parent_constraint
    }

    fn build(&self, node: &RectNode, _tree: &Rectree, positioner: &mut Positioner) -> Size {
        self.build_calls.set(self.build_calls.get() + 1);
        for (id, v) in &self.moves {
            positioner.set(*id, *v);
        }
        if let Some((id, size)) = self.forced_size {
            if node.depth() > 0 && node.parent().is_some() && id_matches(node, id) {
                return size;
            }
        }
        node.size()
    }
}

fn id_matches(_node: &RectNode, _id: NodeId) -> bool {
    // Nodes do not know their own handle; the forced size applies to every
    // non-root node in these small trees.
    true
}

struct TestWorld {
    solver: TestSolver,
}

impl LayoutWorld for TestWorld {
    type Solver = TestSolver;

    fn get_solver(&self, _id: &NodeId) -> &TestSolver {
        &self.solver
    }
}

fn three_chain(tree: &mut Rectree) -> (NodeId, NodeId, NodeId) {
    let r = tree.insert_node(
        RectNode::new().with_translation(Vec2 { x: 0, y: 0 }).with_size(Size {
            width: 100,
            height: 100,
        }),
    );
    let c = tree.insert_node(
        RectNode::new()
            .with_translation(Vec2 { x: 10, y: 10 })
            .with_size(Size { width: 10, height: 10 })
            .with_parent(r),
    );
    let g = tree.insert_node(
        RectNode::new()
            .with_translation(Vec2 { x: 10, y: 10 })
            .with_size(Size { width: 10, height: 10 })
            .with_parent(c),
    );
    (r, c, g)
}

#[test]
fn layout_positions_and_converges() {
    let mut tree = Rectree::new();
    let (r, c, g) = three_chain(&mut tree);
    let world = TestWorld { solver: TestSolver::identity() };

    assert!(tree.needs_relayout());
    tree.layout(&world);
    assert!(!tree.needs_relayout());

    assert_eq!(tree.get_node(&r).unwrap().world_translation(), Vec2 { x: 0, y: 0 });
    assert_eq!(tree.get_node(&c).unwrap().world_translation(), Vec2 { x: 10, y: 10 });
    assert_eq!(tree.get_node(&g).unwrap().world_translation(), Vec2 { x: 20, y: 20 });
    assert_eq!(tree.get_node(&r).unwrap().size(), Size { width: 100, height: 100 });
}

#[test]
fn layout_twice_changes_nothing() {
    let mut tree = Rectree::new();
    let (r, c, g) = three_chain(&mut tree);
    let world = TestWorld { solver: TestSolver::identity() };

    tree.layout(&world);
    let worlds = [
        tree.get_node(&r).unwrap().world_translation(),
        tree.get_node(&c).unwrap().world_translation(),
        tree.get_node(&g).unwrap().world_translation(),
    ];
    let sizes = [
        tree.get_node(&r).unwrap().size(),
        tree.get_node(&c).unwrap().size(),
        tree.get_node(&g).unwrap().size(),
    ];

    tree.layout(&world);
    assert!(!tree.needs_relayout());
    assert_eq!(tree.get_node(&r).unwrap().world_translation(), worlds[0]);
    assert_eq!(tree.get_node(&c).unwrap().world_translation(), worlds[1]);
    assert_eq!(tree.get_node(&g).unwrap().world_translation(), worlds[2]);
    assert_eq!(tree.get_node(&r).unwrap().size(), sizes[0]);
    assert_eq!(tree.get_node(&c).unwrap().size(), sizes[1]);
    assert_eq!(tree.get_node(&g).unwrap().size(), sizes[2]);
}

#[test]
fn constraint_skip_visits_only_the_seed() {
    let mut tree = Rectree::new();
    let (_r, _c, g) = three_chain(&mut tree);
    let world = TestWorld { solver: TestSolver::identity() };

    // Consume the insertion-time schedule first.
    tree.layout(&world);
    world.solver.constraint_calls.set(0);
    world.solver.build_calls.set(0);

    // Schedule only the deep leaf: with an identity constraint and an
    // unchanged size, exactly the seed is visited and built.
    assert!(tree.schedule_relayout(g));
    tree.layout(&world);

    assert_eq!(world.solver.constraint_calls.get(), 1);
    assert_eq!(world.solver.build_calls.get(), 1);
}

#[test]
fn positioner_moves_children() {
    let mut tree = Rectree::new();
    let r = tree.insert_node(RectNode::new().with_size(Size { width: 100, height: 100 }));
    let c = tree.insert_node(
        RectNode::new().with_translation(Vec2 { x: 1, y: 1 }).with_parent(r),
    );
    let world = TestWorld {
        solver: TestSolver {
            constraint_calls: Cell::new(0),
            build_calls: Cell::new(0),
            moves: vec![(c, Vec2 { x: 5, y: 5 })],
            forced_size: None,
        },
    };

    tree.layout(&world);
    assert_eq!(tree.get_node(&c).unwrap().local_translation(), Vec2 { x: 5, y: 5 });
    assert_eq!(tree.get_node(&c).unwrap().world_translation(), Vec2 { x: 5, y: 5 });
}

#[test]
fn size_change_reaches_the_parent() {
    let mut tree = Rectree::new();
    let r = tree.insert_node(RectNode::new().with_size(Size { width: 100, height: 100 }));
    let c = tree.insert_node(
        RectNode::new().with_size(Size { width: 10, height: 10 }).with_parent(r),
    );
    let world = TestWorld {
        solver: TestSolver {
            constraint_calls: Cell::new(0),
            build_calls: Cell::new(0),
            moves: Vec::new(),
            forced_size: Some((c, Size { width: 40, height: 40 })),
        },
    };

    tree.layout(&world);
    // The child's size changed, so its parent was rebuilt as well: one
    // build for the child, plus at least one for the (re-enqueued) root.
    assert_eq!(tree.get_node(&c).unwrap().size(), Size { width: 40, height: 40 });
    assert!(world.solver.build_calls.get() >= 2);
    assert!(!tree.needs_relayout());
}
