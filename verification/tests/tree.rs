use rectree::geom::{Size, Vec2};
use rectree::node::RectNode;
use rectree::tree::Rectree;

#[test]
fn insert_links_parent_and_depth() {
    let mut tree = Rectree::new();
    let root = tree.insert_node(RectNode::new());
    let child = tree.insert_node(RectNode::new().with_parent(root));

    let cn = tree.get_node(&child).unwrap();
    assert_eq!(cn.parent(), Some(root));
    assert_eq!(cn.depth(), 1);
    assert!(tree.get_node(&root).unwrap().children().contains(&child));
    assert!(tree.root_ids().contains(&root));
    assert!(tree.needs_relayout());
}

#[test]
fn remove_takes_whole_subtree() {
    let mut tree = Rectree::new();
    let root = tree.insert_node(RectNode::new());
    let child = tree.insert_node(RectNode::new().with_parent(root));
    let grandchild = tree.insert_node(RectNode::new().with_parent(child));
    let other = tree.insert_node(RectNode::new());

    assert!(tree.remove_node(&root));
    assert!(tree.get_node(&root).is_none());
    assert!(tree.get_node(&child).is_none());
    assert!(tree.get_node(&grandchild).is_none());
    assert!(tree.get_node(&other).is_some());
    assert!(!tree.root_ids().contains(&root));
    assert!(!tree.remove_node(&root));
}

#[test]
fn insert_position_scenario() {
    let mut tree = Rectree::new();
    let r = tree.insert_node(
        RectNode::new().with_translation(Vec2 { x: 0, y: 0 }).with_size(Size {
            width: 100,
            height: 100,
        }),
    );
    let c = tree.insert_node(
        RectNode::new()
            .with_translation(Vec2 { x: 10, y: 10 })
            .with_size(Size { width: 10, height: 10 })
            .with_parent(r),
    );
    let g = tree.insert_node(
        RectNode::new()
            .with_translation(Vec2 { x: 10, y: 10 })
            .with_size(Size { width: 10, height: 10 })
            .with_parent(c),
    );

    tree.update_translations();

    assert_eq!(tree.get_node(&r).unwrap().world_translation(), Vec2 { x: 0, y: 0 });
    assert_eq!(tree.get_node(&c).unwrap().world_translation(), Vec2 { x: 10, y: 10 });
    assert_eq!(tree.get_node(&g).unwrap().world_translation(), Vec2 { x: 20, y: 20 });
}

#[test]
fn translation_drift_scenario() {
    let mut tree = Rectree::new();
    let r = tree.insert_node(RectNode::new().with_translation(Vec2 { x: 0, y: 0 }));
    let c = tree.insert_node(RectNode::new().with_translation(Vec2 { x: 10, y: 10 }).with_parent(r));
    let g = tree.insert_node(RectNode::new().with_translation(Vec2 { x: 10, y: 10 }).with_parent(c));

    tree.update_translations();

    // Drift the middle node and propagate again.
    tree.with_node_mut(&c, |node| {
        let cur = node.local_translation();
        node.set_local_translation(Vec2 { x: cur.x + 3, y: cur.y + 3 });
    });
    tree.update_translations();

    assert_eq!(tree.get_node(&r).unwrap().world_translation(), Vec2 { x: 0, y: 0 });
    assert_eq!(tree.get_node(&c).unwrap().world_translation(), Vec2 { x: 13, y: 13 });
    assert_eq!(tree.get_node(&g).unwrap().world_translation(), Vec2 { x: 23, y: 23 });
}

#[test]
fn schedule_relayout_only_for_live_nodes() {
    let mut tree = Rectree::new();
    let r = tree.insert_node(RectNode::new());
    tree.remove_node(&r);
    assert!(!tree.schedule_relayout(r));
    let r2 = tree.insert_node(RectNode::new());
    assert!(tree.needs_relayout());
    let _ = r2;
}

#[test]
fn node_scope_gives_node_and_rest_of_tree() {
    let mut tree = Rectree::new();
    let r = tree.insert_node(RectNode::new());
    let c = tree.insert_node(RectNode::new().with_parent(r));

    let got = tree.node_scope(&c, |rest: Rectree, node: RectNode| {
        // The scoped node is out of the tree, its parent still in.
        assert!(rest.get_node(&c).is_none());
        assert!(rest.get_node(&r).is_some());
        let d = node.depth();
        (rest, node, d)
    });
    assert_eq!(got, Some(1));
    assert!(tree.get_node(&c).is_some());
}
