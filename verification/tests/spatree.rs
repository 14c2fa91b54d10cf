use rectree::geom::{Point, Rect};
use rectree::spatree::Spatree;

fn center(r: &Rect) -> Point {
    r.center()
}

#[test]
fn test_empty_tree() {
    let mut tree = Spatree::new();
    tree.build(center);

    assert!(tree.get_rect(rectree::spatree::RectId(0)).is_none());
    assert_eq!(*tree.global_bound(), Rect::new(0, 0, 0, 0));

    let hits = tree.query_point(Point::new(10, 10));
    assert!(hits.is_empty());
}

#[test]
fn test_single_item_tree() {
    let mut tree = Spatree::new();
    let r1 = Rect::new(0, 0, 10, 10);
    let id = tree.push_rect(r1);

    tree.build(center);

    let hits = tree.query_point(Point::new(5, 5));
    assert_eq!(hits.len(), 1);
    assert_eq!(hits[0], id);
}

#[test]
fn test_hierarchy_structure_and_bounds() {
    let mut tree = Spatree::new();

    // The four corners of a 100 by 100 area.
    let r1 = Rect::new(0, 0, 10, 10);
    let r2 = Rect::new(90, 0, 100, 10);
    let r3 = Rect::new(0, 90, 10, 100);
    let r4 = Rect::new(90, 90, 100, 100);

    tree.push_rect(r1);
    tree.push_rect(r2);
    tree.push_rect(r3);
    tree.push_rect(r4);

    tree.build(center);

    // N rectangles give N - 1 internal nodes; the root's box is the union.
    let root = tree.root_rect().unwrap();
    assert_eq!(root.x0, 0);
    assert_eq!(root.y0, 0);
    assert_eq!(root.x1, 100);
    assert_eq!(root.y1, 100);
    assert_eq!(tree.node_count(), 3);
}

#[test]
fn test_query_point() {
    let mut tree = Spatree::new();
    let r1 = Rect::new(10, 10, 30, 30);
    let r2 = Rect::new(20, 20, 40, 40);

    let id1 = tree.push_rect(r1);
    let id2 = tree.push_rect(r2);

    tree.build(center);

    // A point inside the intersection hits both.
    let hits = tree.query_point(Point::new(25, 25));
    assert_eq!(hits.len(), 2);
    assert!(hits.contains(&id1));
    assert!(hits.contains(&id2));
}

#[test]
fn test_query_rect() {
    let mut tree = Spatree::new();

    let r1 = Rect::new(0, 0, 10, 10);
    let r2 = Rect::new(20, 0, 30, 10);
    let r3 = Rect::new(0, 20, 30, 30);

    let id1 = tree.push_rect(r1);
    let id2 = tree.push_rect(r2);
    let id3 = tree.push_rect(r3);

    tree.build(center);

    // Overlap only the first.
    let hits = tree.query_rect(Rect::new(-5, -5, 5, 5));
    assert_eq!(hits.len(), 1);
    assert!(hits.contains(&id1));

    // Overlap the two top rectangles but not the strip.
    let hits = tree.query_rect(Rect::new(5, 2, 25, 8));
    assert_eq!(hits.len(), 2);
    assert!(hits.contains(&id1));
    assert!(hits.contains(&id2));
    assert!(!hits.contains(&id3));

    // Overlap all three.
    let hits = tree.query_rect(Rect::new(5, 5, 25, 25));
    assert_eq!(hits.len(), 3);
    assert!(hits.contains(&id1));
    assert!(hits.contains(&id2));
    assert!(hits.contains(&id3));

    // A complete miss.
    let hits = tree.query_rect(Rect::new(100, 100, 110, 110));
    assert!(hits.is_empty());
}

#[test]
fn test_query_point_single() {
    let mut tree = Spatree::new();

    // Largest (lowest), middle, smallest (top).
    let id0 = tree.push_rect(Rect::new(0, 0, 100, 100));
    let id1 = tree.push_rect(Rect::new(0, 0, 50, 50));
    let id2 = tree.push_rect(Rect::new(0, 0, 10, 10));

    assert!(id0 < id1 && id1 < id2, "Ids should be incremented!");

    tree.build(center);

    // The highest index wins, simulating a stack or z-order.
    let conflict_resolution =
        |a: rectree::spatree::RectId, b: rectree::spatree::RectId| if a > b { a } else { b };

    let hit = tree.query_point_single(Point::new(5, 5), conflict_resolution);
    assert_eq!(hit, Some(id2));

    let hit = tree.query_point_single(Point::new(20, 20), conflict_resolution);
    assert_eq!(hit, Some(id1));

    let hit = tree.query_point_single(Point::new(75, 75), conflict_resolution);
    assert_eq!(hit, Some(id0));

    let hit = tree.query_point_single(Point::new(150, 150), conflict_resolution);
    assert!(hit.is_none());
}

#[test]
fn test_query_rect_single() {
    let mut tree = Spatree::new();

    let id0 = tree.push_rect(Rect::new(0, 0, 100, 100));
    let id1 = tree.push_rect(Rect::new(0, 0, 50, 50));
    let id2 = tree.push_rect(Rect::new(0, 0, 10, 10));

    tree.build(center);

    let conflict_resolution =
        |a: rectree::spatree::RectId, b: rectree::spatree::RectId| if a > b { a } else { b };

    let hit = tree.query_rect_single(Rect::new(2, 2, 8, 8), conflict_resolution);
    assert_eq!(hit, Some(id2));

    let hit = tree.query_rect_single(Rect::new(15, 15, 25, 25), conflict_resolution);
    assert_eq!(hit, Some(id1));

    let hit = tree.query_rect_single(Rect::new(60, 60, 70, 70), conflict_resolution);
    assert_eq!(hit, Some(id0));

    let hit = tree.query_rect_single(Rect::new(200, 200, 210, 210), conflict_resolution);
    assert!(hit.is_none());
}

#[test]
fn global_bound_accumulates() {
    let mut tree = Spatree::new();
    tree.push_rect(Rect::new(0, 0, 10, 10));
    tree.push_rect(Rect::new(90, 90, 100, 100));
    assert_eq!(*tree.global_bound(), Rect::new(0, 0, 100, 100));
}

#[test]
fn generic_query_ids_in_range() {
    let mut tree = Spatree::new();
    tree.push_rect(Rect::new(0, 0, 10, 10));
    tree.push_rect(Rect::new(5, 5, 20, 20));
    tree.build(center);
    let hits = tree.query(Point::new(7, 7), |r: &Rect, p: &Point| r.contains(*p));
    assert_eq!(hits.len(), 2);
}
